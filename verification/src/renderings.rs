//! What is written can be read back: numerals, decimals, days and times.

use crate::binary64;
use crate::binary64::Binary64;
use crate::calendar;
use crate::calendar::TimeOfDay;
use crate::decimal;
use crate::fixed_capital::fixed_point;
use crate::rounding;
use crate::rounding::one;
use crate::text;
use vstd::arithmetic::power::*;
use vstd::arithmetic::power2::*;
use vstd::prelude::*;

verus! {

/// Whether a character is a decimal digit.
pub open spec fn is_digit(c: char) -> bool {
    '0' <= c <= '9'
}

/// What decimal digits amount to.
pub open spec fn reads(digits: Seq<char>) -> int
    decreases digits.len(),
{
    if digits.len() == 0 {
        0
    } else {
        10 * reads(digits.drop_last()) + (digits.last() as int - '0' as int)
    }
}

/// A numeral is made of digits that amount to its number, the first of which is no zero
/// unless it is the only one.
pub proof fn law_numerals_read_back(n: nat)
    ensures
        reads(text::numeral(n)) == n,
        text::numeral(n).len() > 0,
        forall|i: int| 0 <= i < text::numeral(n).len() ==> is_digit(#[trigger] text::numeral(n)[i]),
        text::numeral(n).len() > 1 ==> text::numeral(n)[0] != '0',
        n > 0 ==> text::numeral(n)[0] != '0',
    decreases n,
{
    let s = text::numeral(n);
    reveal_with_fuel(reads, 2);
    if n >= 10 {
        law_numerals_read_back(n / 10);
        assert(s.drop_last() =~= text::numeral(n / 10));
        assert(s[0] == text::numeral(n / 10)[0]);
    } else {
        assert(s.drop_last() =~= Seq::<char>::empty());
    }
}

/// A count that is written is read as the same count.
pub proof fn law_counts_read_back(n: usize)
    ensures
        text::count(text::numeral(n as nat)) == Ok::<usize, &'static str>(n),
{
    law_numerals_read_back(n as nat);
    lemma_digits_value(text::numeral(n as nat));
    assert(is_digit(text::numeral(n as nat)[0]));
}

/// Digits are read as what they amount to.
proof fn lemma_digits_value(digits: Seq<char>)
    requires
        forall|i: int| 0 <= i < digits.len() ==> is_digit(#[trigger] digits[i]),
        reads(digits) <= usize::MAX,
    ensures
        text::digits_value(digits) == Ok::<usize, &'static str>(reads(digits) as usize),
        reads(digits) >= 0,
    decreases digits.len(),
{
    if digits.len() > 0 {
        let fewer = digits.drop_last();
        assert forall|i: int| 0 <= i < fewer.len() implies is_digit(#[trigger] fewer[i]) by {
            assert(fewer[i] == digits[i]);
        }
        assert(is_digit(digits[digits.len() - 1]));
        lemma_reads_natural(fewer);
        lemma_digits_value(fewer);
    }
}

proof fn lemma_reads_natural(digits: Seq<char>)
    requires
        forall|i: int| 0 <= i < digits.len() ==> is_digit(#[trigger] digits[i]),
    ensures
        reads(digits) >= 0,
    decreases digits.len(),
{
    if digits.len() > 0 {
        let fewer = digits.drop_last();
        assert forall|i: int| 0 <= i < fewer.len() implies is_digit(#[trigger] fewer[i]) by {
            assert(fewer[i] == digits[i]);
        }
        assert(is_digit(digits[digits.len() - 1]));
        lemma_reads_natural(fewer);
    }
}

/// A numeral that is filled up has as many digits as asked for, and they amount to the
/// last places of its number.
pub proof fn law_padded_numerals_read_back(n: nat, width: nat)
    ensures
        text::padded(n, width).len() == width,
        reads(text::padded(n, width)) == n as int % pow(10, width),
        n < pow(10, width) ==> reads(text::padded(n, width)) == n,
        forall|i: int| 0 <= i < width ==> is_digit(#[trigger] text::padded(n, width)[i]),
        pow(10, width) > 0,
    decreases width,
{
    let s = text::padded(n, width);
    lemma_pow_positive(10, width);
    if width == 0 {
        reveal(pow);
    } else {
        let less = (width - 1) as nat;
        law_padded_numerals_read_back(n / 10, less);
        assert(s.drop_last() =~= text::padded(n / 10, less));
        let p = pow(10, less);
        reveal(pow);
        assert(pow(10, width) == 10 * p);
        let m = n as int;
        assert(m % (10 * p) == 10 * ((m / 10) % p) + m % 10) by {
            vstd::arithmetic::div_mod::lemma_breakdown(m, 10, p);
        }
    }
    if n < pow(10, width) {
        vstd::arithmetic::div_mod::lemma_small_mod(n, pow(10, width) as nat);
    }
}

/// A count of decimal places is written with its point before them: the digits before the
/// point amount to the whole part, those behind it to the rest.
pub proof fn law_pointed_counts_read_back(units: int, places: nat)
    requires
        units >= 0,
    ensures
        ({
            let s = decimal::pointed(units, places);
            let point = s.len() - places - 1;
            &&& point > 0
            &&& s[point] == '.'
            &&& is_digit(s[0])
            &&& reads(s.take(point)) * pow(10, places) + reads(s.skip(point + 1)) == units
        }),
{
    let p = pow(10, places);
    lemma_pow_positive(10, places);
    let whole = (units / p) as nat;
    let rest = (units % p) as nat;
    vstd::arithmetic::div_mod::lemma_fundamental_div_mod(units, p);
    vstd::arithmetic::div_mod::lemma_div_pos_is_pos(units, p);
    vstd::arithmetic::div_mod::lemma_mod_bound(units, p);
    law_numerals_read_back(whole);
    law_padded_numerals_read_back(rest, places);
    reveal_strlit(".");
    let s = decimal::pointed(units, places);
    let point = s.len() - places - 1;
    assert(s.take(point) =~= text::numeral(whole));
    assert(s.skip(point + 1) =~= text::padded(rest, places));
    assert(p * whole == whole * p) by (nonlinear_arith);
}

/// Counts that are written alike are the same.
pub proof fn law_pointed_counts_differ(a: int, b: int, places: nat)
    requires
        a >= 0,
        b >= 0,
        decimal::pointed(a, places) == decimal::pointed(b, places),
    ensures
        a == b,
{
    law_pointed_counts_read_back(a, places);
    law_pointed_counts_read_back(b, places);
}

/// A number with decimal places is written as the count of last places that is nearest
/// to it, the even one of two, behind a minus sign where it is negative.
pub proof fn law_decimals_are_nearest(value: Binary64, places: nat)
    requires
        value.finite(),
    ensures
        ({
            let count = decimal::last_places(value, places);
            let exact = rounding::magnitude(value.value()) * pow(10, places);
            &&& count >= 0
            &&& 2 * rounding::distance(count * one(), exact) <= one()
            &&& 2 * rounding::distance(count * one(), exact) == one() ==> count % 2 == 0
            &&& value.value() < 0 ==> decimal::fixed(value, places) == "-"@ + decimal::pointed(
                count,
                places,
            )
            &&& value.value() > 0 ==> decimal::fixed(value, places) == decimal::pointed(
                count,
                places,
            )
        }),
{
    rounding::lemma_mag_unit(value);
    lemma_pow_positive(10, places);
    lemma_pow2_pos(binary64::ONE_EXPONENT as nat);
    let m = rounding::magnitude(value.value());
    let n = m * pow(10, places);
    assert(n >= 0) by (nonlinear_arith)
        requires
            n == m * pow(10, places),
            m >= 0,
            pow(10, places) > 0,
    ;
    decimal::lemma_half_even_near(n, one());
    let count = decimal::half_even(n, one());
    let o = one();
    assert(o * count == count * o) by (nonlinear_arith);
    vstd::arithmetic::div_mod::lemma_fundamental_div_mod(n, o);
    assert(o * (n / o) + o == o * (n / o + 1)) by (nonlinear_arith);
    vstd::arithmetic::div_mod::lemma_div_pos_is_pos(n, o);
    assert(Seq::<char>::empty() + decimal::pointed(count, places) =~= decimal::pointed(
        count,
        places,
    ));
}

/// A return that is written reads back to the last unit: the digits before its point count
/// ones, the twelve behind it units.
pub proof fn law_counted_returns_read_back(units: int)
    ensures
        ({
            let s = fixed_point::fixed_digits(units);
            let point = s.len() - 13;
            let start = if units < 0 {
                1int
            } else {
                0
            };
            &&& point > start
            &&& s[point] == '.'
            &&& units < 0 <==> s[0] == '-'
            &&& reads(s.subrange(start, point)) * 1_000_000_000_000 + reads(s.skip(point + 1))
                == rounding::magnitude(units)
        }),
{
    let m = rounding::magnitude(units);
    law_pointed_counts_read_back(m, 12);
    reveal(pow);
    reveal_with_fuel(pow, 13);
    assert(pow(10, 12) == 1_000_000_000_000);
    reveal_strlit("-");
    let t = decimal::pointed(m, 12);
    let s = fixed_point::fixed_digits(units);
    let start = if units < 0 {
        1int
    } else {
        0
    };
    assert(s.subrange(start, s.len() - 13) =~= t.take(t.len() - 13));
    assert(s.skip(s.len() - 12) =~= t.skip(t.len() - 12));
}

/// An integer is written with a minus sign exactly where it is negative, before the
/// numeral of its size.
pub proof fn law_integers_read_back(n: int)
    ensures
        n >= 0 ==> reads(text::integer(n)) == n && is_digit(text::integer(n)[0]),
        n < 0 ==> text::integer(n)[0] == '-' && reads(text::integer(n).skip(1)) == -n,
{
    reveal_strlit("-");
    law_numerals_read_back(rounding::magnitude(n) as nat);
    let m = text::numeral(rounding::magnitude(n) as nat);
    if n < 0 {
        assert(text::integer(n).skip(1) =~= m);
    } else {
        assert(is_digit(m[0]));
    }
}

/// A time of day is written as its hours, minutes and seconds, two digits each.
pub proof fn law_times_read_back(time: TimeOfDay)
    requires
        time.seconds < 86_400,
    ensures
        ({
            let s = calendar::time_text(time);
            &&& s.len() == 8
            &&& s[2] == ':' && s[5] == ':'
            &&& reads(s.subrange(0, 2)) * 3_600 + reads(s.subrange(3, 5)) * 60 + reads(
                s.subrange(6, 8),
            ) == time.seconds
            &&& 0 <= reads(s.subrange(3, 5)) < 60
            &&& 0 <= reads(s.subrange(6, 8)) < 60
        }),
{
    let s = calendar::time_text(time);
    let h = (time.seconds / 3_600) as nat;
    let m = (time.seconds / 60 % 60) as nat;
    let t = (time.seconds % 60) as nat;
    lemma_hundred();
    law_padded_numerals_read_back(h, 2);
    law_padded_numerals_read_back(m, 2);
    law_padded_numerals_read_back(t, 2);
    reveal_strlit(":");
    assert(s.subrange(0, 2) =~= text::padded(h, 2));
    assert(s.subrange(3, 5) =~= text::padded(m, 2));
    assert(s.subrange(6, 8) =~= text::padded(t, 2));
}

proof fn lemma_hundred()
    ensures
        pow(10, 2) == 100,
        pow(10, 4) == 10_000,
{
    reveal(pow);
    reveal_with_fuel(pow, 5);
}

/// A day of a year with four digits is written as its year, month and day.
pub proof fn law_days_read_back(day: (int, int, int))
    requires
        0 <= day.0 <= 9999,
        1 <= day.1 <= 12,
        1 <= day.2 <= 31,
    ensures
        ({
            let s = calendar::day_text(day);
            &&& s.len() == 10
            &&& s[4] == '-' && s[7] == '-'
            &&& reads(s.subrange(0, 4)) == day.0
            &&& reads(s.subrange(5, 7)) == day.1
            &&& reads(s.subrange(8, 10)) == day.2
        }),
        ({
            let s = calendar::compact_day(day);
            &&& s.len() == 8
            &&& reads(s.subrange(0, 4)) == day.0
            &&& reads(s.subrange(4, 6)) == day.1
            &&& reads(s.subrange(6, 8)) == day.2
        }),
{
    let s = calendar::day_text(day);
    let c = calendar::compact_day(day);
    lemma_hundred();
    law_padded_numerals_read_back(day.0 as nat, 4);
    law_padded_numerals_read_back(day.1 as nat, 2);
    law_padded_numerals_read_back(day.2 as nat, 2);
    reveal_strlit("-");
    assert(s.subrange(0, 4) =~= text::padded(day.0 as nat, 4));
    assert(s.subrange(5, 7) =~= text::padded(day.1 as nat, 2));
    assert(s.subrange(8, 10) =~= text::padded(day.2 as nat, 2));
    assert(c.subrange(0, 4) =~= text::padded(day.0 as nat, 4));
    assert(c.subrange(4, 6) =~= text::padded(day.1 as nat, 2));
    assert(c.subrange(6, 8) =~= text::padded(day.2 as nat, 2));
}

/// Days are counted one by one from the first of 1970: the next day of a month, the first
/// of the next month and the first of the next year each have the next number. A year has
/// a leap day every fourth year, but for centuries that no four hundred divides.
pub proof fn law_days_are_counted(year: int, month: int, day: int)
    requires
        1 <= month <= 12,
    ensures
        calendar::day_number(1970, 1, 1) == 0,
        calendar::day_number(year, month, day + 1) == calendar::day_number(year, month, day) + 1,
        month < 12 ==> calendar::day_number(year, month + 1, 1) == calendar::day_number(
            year,
            month,
            calendar::month_length(year, month),
        ) + 1,
        calendar::day_number(year + 1, 1, 1) == calendar::day_number(year, 12, 31) + 1,
        calendar::month_length(year, 2) == if year % 4 == 0 && (year % 100 != 0 || year % 400
            == 0) {
            29int
        } else {
            28
        },
{
    reveal_with_fuel(calendar::days_before_month, 13);
    assert((year / 4 - (year - 1) / 4 == 1) == (year % 4 == 0));
    assert((year / 100 - (year - 1) / 100 == 1) == (year % 100 == 0));
    assert((year / 400 - (year - 1) / 400 == 1) == (year % 400 == 0));
    assert(year / 4 - (year - 1) / 4 == 0 || year / 4 - (year - 1) / 4 == 1);
    assert(year / 100 - (year - 1) / 100 == 0 || year / 100 - (year - 1) / 100 == 1);
    assert(year / 400 - (year - 1) / 400 == 0 || year / 400 - (year - 1) / 400 == 1);
}

/// A timestamp is read as the time since midnight of its day.
pub proof fn law_clocks_show_the_time_of_day(timestamp_ns: u64)
    ensures
        ({
            let time = calendar::time_of_day(timestamp_ns);
            &&& time.nanoseconds < 1_000_000_000
            &&& time.seconds < 86_400
            &&& time.seconds * 1_000_000_000 + time.nanoseconds == timestamp_ns
                % 86_400_000_000_000
        }),
{
    let t = timestamp_ns as int;
    let s = (t / 1_000_000_000) % 86_400;
    assert(t % 86_400_000_000_000 == s * 1_000_000_000 + t % 1_000_000_000);
}

} // verus!
