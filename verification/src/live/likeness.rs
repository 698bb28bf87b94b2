//! What it means that two records of a ledger are the same, field by field.

use crate::binary64::Binary64;
use crate::decimal;
use crate::live::agreement;
use crate::live::parity;
use crate::live::parity::{
    CandidateDecision, CandidateLabel, Reading, ReferenceDecision, ReferenceLabel,
};
use crate::renderings;
use crate::rounding;
use crate::rounding::{distance, one};
use crate::text;
use vstd::arithmetic::power::*;
use vstd::prelude::*;

verus! {

/// Whether a field of a reference holds a number that lies no further from another than
/// the last of fourteen decimal places.
pub open spec fn is_near(reading: Reading, value: Binary64) -> bool {
    reading matches Ok(number) && number.finite() && value.finite() && distance(
        number.value(),
        value.value(),
    ) * pow(10, 14) <= one()
}

/// Whether two optional numbers are both there and near, or both absent.
pub open spec fn is_near_if_any(reading: Option<Reading>, value: Option<Binary64>) -> bool {
    match (reading, value) {
        (None, None) => true,
        (Some(reading), Some(value)) => is_near(reading, value),
        _ => false,
    }
}

/// Whether a field of a reference says what a truth value says.
pub open spec fn is_truth(field: Seq<char>, value: Option<bool>) -> bool {
    match value {
        None => field.len() == 0,
        Some(true) => field == "True"@ || field == "true"@,
        Some(false) => field == "False"@ || field == "false"@,
    }
}

proof fn lemma_fixed(value: Binary64)
    requires
        value.finite(),
    ensures
        value.negative() ==> decimal::fixed(value, 14) == seq!['-'] + decimal::pointed(
            decimal::last_places(value, 14),
            14,
        ),
        !value.negative() ==> decimal::fixed(value, 14) == decimal::pointed(
            decimal::last_places(value, 14),
            14,
        ),
        decimal::last_places(value, 14) >= 0,
        2 * distance(
            decimal::last_places(value, 14) * one(),
            rounding::magnitude(value.value()) * pow(10, 14),
        ) <= one(),
        decimal::pointed(decimal::last_places(value, 14), 14).len() > 0,
        renderings::is_digit(decimal::pointed(decimal::last_places(value, 14), 14)[0]),
{
    renderings::law_decimals_are_nearest(value, 14);
    renderings::law_pointed_counts_read_back(decimal::last_places(value, 14), 14);
    reveal_strlit("-");
    assert("-"@ =~= seq!['-']);
    let p = decimal::pointed(decimal::last_places(value, 14), 14);
    assert(Seq::<char>::empty() + p =~= p);
}

/// Numbers that are written alike are near.
proof fn lemma_near(a: Binary64, b: Binary64)
    requires
        a.finite(),
        b.finite(),
        decimal::fixed(a, 14) == decimal::fixed(b, 14),
    ensures
        distance(a.value(), b.value()) * pow(10, 14) <= one(),
        decimal::fixed(a, 14).len() > 0,
{
    lemma_fixed(a);
    lemma_fixed(b);
    rounding::lemma_mag_unit(a);
    rounding::lemma_mag_unit(b);
    let s = decimal::pointed(decimal::last_places(a, 14), 14);
    let t = decimal::pointed(decimal::last_places(b, 14), 14);
    if a.negative() != b.negative() {
        assert(decimal::fixed(a, 14)[0] != decimal::fixed(b, 14)[0]);
    }
    if a.negative() {
        assert((seq!['-'] + s).skip(1) =~= s);
        assert((seq!['-'] + t).skip(1) =~= t);
    }
    renderings::law_pointed_counts_differ(
        decimal::last_places(a, 14),
        decimal::last_places(b, 14),
        14,
    );
    let p = pow(10, 14);
    lemma_pow_positive(10, 14);
    let x = rounding::magnitude(a.value());
    let y = rounding::magnitude(b.value());
    assert(distance(a.value(), b.value()) == distance(x, y));
    assert((x - y) * p == x * p - y * p) by (nonlinear_arith);
    assert((y - x) * p == y * p - x * p) by (nonlinear_arith);
}

/// What zero is written as, with or without a sign.
spec fn unsigned_zero(value: Binary64) -> Binary64 {
    if value.zero() {
        Binary64::of_int(0)
    } else {
        value
    }
}

proof fn lemma_decimal(a: Binary64, b: Binary64)
    requires
        parity::decimal_part(a) is Ok,
        parity::decimal_part(a) == parity::decimal_part(b),
    ensures
        a.finite(),
        b.finite(),
        distance(a.value(), b.value()) * pow(10, 14) <= one(),
{
    rounding::law_integers_are_exact(0);
    assert(0 * one() == 0);
    rounding::lemma_mag_unit(a);
    rounding::lemma_mag_unit(b);
    lemma_near(unsigned_zero(a), unsigned_zero(b));
}

proof fn lemma_some_decimal(a: Binary64)
    requires
        parity::decimal_part(a) is Ok,
    ensures
        parity::decimal_part(a)->Ok_0.len() > 0,
{
    rounding::law_integers_are_exact(0);
    lemma_near(unsigned_zero(a), unsigned_zero(a));
}

proof fn lemma_reading(reading: Reading, value: Binary64)
    requires
        parity::decimal_part(value) is Ok,
        parity::reading_part(reading) == parity::decimal_part(value),
    ensures
        is_near(reading, value),
{
    lemma_decimal(reading->Ok_0, value);
}

proof fn lemma_optional(reading: Option<Reading>, value: Option<Binary64>)
    requires
        parity::optional_number_part(value) is Ok,
        parity::optional_reading_part(reading) == parity::optional_number_part(value),
    ensures
        is_near_if_any(reading, value),
{
    match (reading, value) {
        (None, None) => {},
        (Some(reading), Some(value)) => {
            lemma_reading(reading, value);
        },
        (None, Some(value)) => {
            lemma_some_decimal(value);
        },
        (Some(reading), None) => {
            lemma_some_decimal(reading->Ok_0);
        },
    }
}

proof fn lemma_count(field: Seq<char>, n: usize)
    requires
        parity::unsigned_part(field) == Ok::<Seq<char>, Seq<char>>(text::numeral(n as nat)),
    ensures
        text::count(field) == Ok::<usize, &'static str>(n),
{
    let m = text::count(field)->Ok_0;
    renderings::law_numerals_read_back(m as nat);
    renderings::law_numerals_read_back(n as nat);
}

proof fn lemma_truth(field: Seq<char>, value: Option<bool>)
    requires
        parity::boolean_part(field) == Ok::<Seq<char>, Seq<char>>(
            parity::optional_bool_text(value),
        ),
    ensures
        is_truth(field, value),
{
    reveal_strlit("true");
    reveal_strlit("false");
    assert("true"@.len() == 4 && "false"@.len() == 5);
}

/// Decisions that are the same are of one candidate and hold the same in every field:
/// texts and counts are equal, truth values say the same, numbers lie no further apart
/// than the last of fourteen decimal places, and what the one leaves out the other does.
pub proof fn law_same_decisions_agree_in_every_field(
    reference: ReferenceDecision,
    references: Seq<ReferenceDecision>,
    candidate: CandidateDecision,
    candidates: Seq<CandidateDecision>,
)
    requires
        agreement::same_decision(reference, references, candidate, candidates),
    ensures
        reference.symbol@ == candidate.symbol@,
        reference.side@ == candidate.side@,
        reference.trade_type@ == candidate.trade_type@,
        reference.candidate_policy_id@ == candidate.candidate_policy_id@,
        parity::timestamp_part(candidate.prediction_asof_ns) == Ok::<Seq<char>, Seq<char>>(
            reference.prediction_asof_time@,
        ),
        reference.planned_exit_policy@ == candidate.planned_exit_policy@,
        reference.prediction_key@ == candidate.prediction_key@,
        is_near(reference.candidate_pred, candidate.candidate_pred),
        text::count(reference.history_count@) == Ok::<usize, &'static str>(
            candidate.history_count,
        ),
        match candidate.history_max_label_available_ns {
            None => reference.history_max_label_available_time@.len() == 0,
            Some(time_ns) => parity::timestamp_part(time_ns) == Ok::<Seq<char>, Seq<char>>(
                reference.history_max_label_available_time@,
            ),
        },
        reference.decision@ == candidate.decision@,
        match candidate.reject_reason {
            None => reference.reject_reason@.len() == 0,
            Some(reason) => reference.reject_reason@ == reason@,
        },
        text::count(reference.active_count@) == Ok::<usize, &'static str>(candidate.active_count),
        is_near(reference.used_weight, candidate.used_weight),
        is_near(reference.candidate_weight, candidate.candidate_weight),
        text::count(reference.same_symbol_count@) == Ok::<usize, &'static str>(
            candidate.same_symbol_count,
        ),
        match candidate.incumbent_candidate_policy_id {
            None => reference.incumbent_candidate_policy_id@.len() == 0,
            Some(id) => reference.incumbent_candidate_policy_id@ == id@,
        },
        is_near_if_any(reference.incumbent_pred, candidate.incumbent_pred),
        is_near_if_any(reference.replacement_margin, candidate.replacement_margin),
        is_truth(reference.capital_ok@, candidate.capital_ok),
        is_truth(reference.symbol_ok@, candidate.symbol_ok),
{
    let r = parity::reference_parts(reference, parity::reference_entries(references));
    let c = parity::bullet_parts(candidate, parity::bullet_entries(candidates));
    agreement::lemma_gathered_all(c);
    assert forall|i: int| 0 <= i < 18 implies (#[trigger] c[i]) is Ok by {}
    assert(r[2] == c[2] && r[3] == c[3]);
    assert(c[4] is Ok && r[4] == c[4]);
    lemma_reading(reference.candidate_pred, candidate.candidate_pred);
    assert(r[5] == c[5]);
    lemma_count(reference.history_count@, candidate.history_count);
    assert(c[6] is Ok && r[6] == c[6]);
    assert(r[7] == c[7] && r[8] == c[8]);
    assert(r[9] == c[9]);
    lemma_count(reference.active_count@, candidate.active_count);
    assert(c[10] is Ok && r[10] == c[10]);
    lemma_reading(reference.used_weight, candidate.used_weight);
    assert(c[11] is Ok && r[11] == c[11]);
    lemma_reading(reference.candidate_weight, candidate.candidate_weight);
    assert(r[12] == c[12]);
    lemma_count(reference.same_symbol_count@, candidate.same_symbol_count);
    assert(r[13] == c[13]);
    assert(c[14] is Ok && r[14] == c[14]);
    lemma_optional(reference.incumbent_pred, candidate.incumbent_pred);
    assert(c[15] is Ok && r[15] == c[15]);
    lemma_optional(reference.replacement_margin, candidate.replacement_margin);
    assert(r[16] == c[16]);
    lemma_truth(reference.capital_ok@, candidate.capital_ok);
    assert(r[17] == c[17]);
    lemma_truth(reference.symbol_ok@, candidate.symbol_ok);
}

/// Labels that are the same are of one candidate and hold the same prices, return and
/// times.
pub proof fn law_same_labels_agree_in_every_field(
    reference: ReferenceLabel,
    candidate: CandidateLabel,
)
    requires
        agreement::same_label(reference, candidate),
    ensures
        reference.symbol@ == candidate.symbol@,
        reference.side@ == candidate.side@,
        reference.trade_type@ == candidate.trade_type@,
        reference.candidate_policy_id@ == candidate.candidate_policy_id@,
        parity::timestamp_part(candidate.entry_time_ns) == Ok::<Seq<char>, Seq<char>>(
            reference.entry_time@,
        ),
        is_near(reference.entry_price, candidate.entry_price),
        is_near(reference.exit_price, candidate.exit_price),
        is_near(reference.trade_return, candidate.trade_return),
        parity::timestamp_part(candidate.label_available_ns) == Ok::<Seq<char>, Seq<char>>(
            reference.label_available_time@,
        ),
        reference.exit_time@ == reference.label_available_time@,
{
    let r = parity::reference_label_parts(reference);
    let c = parity::bullet_label_parts(candidate);
    agreement::lemma_gathered_all(c);
    assert forall|i: int| 0 <= i < 6 implies (#[trigger] c[i]) is Ok by {}
    assert(c[1] is Ok && r[1] == c[1]);
    lemma_reading(reference.entry_price, candidate.entry_price);
    assert(r[2] == c[2] && r[3] == c[3]);
    assert(c[4] is Ok && r[4] == c[4]);
    lemma_reading(reference.exit_price, candidate.exit_price);
    assert(c[5] is Ok && r[5] == c[5]);
    lemma_reading(reference.trade_return, candidate.trade_return);
}

/// The time of a ledger is written as its day and its time of day, a space between them.
pub proof fn law_ledger_times_read_back(timestamp_ns: u64)
    requires
        timestamp_ns <= i64::MAX,
    ensures
        parity::timestamp_part(timestamp_ns) is Ok,
        ({
            let s = parity::timestamp_part(timestamp_ns)->Ok_0;
            let n = s.len() as int;
            &&& n > 9
            &&& s[n - 9] == ' '
            &&& renderings::reads(s.subrange(n - 8, n - 6)) * 3_600 + renderings::reads(
                s.subrange(n - 5, n - 3),
            ) * 60 + renderings::reads(s.subrange(n - 2, n)) == timestamp_ns / 1_000_000_000
                % 86_400
        }),
{
    let time = crate::calendar::time_of_day(timestamp_ns);
    renderings::law_clocks_show_the_time_of_day(timestamp_ns);
    renderings::law_times_read_back(time);
    reveal_strlit(" ");
    reveal_strlit("-");
    let s = parity::timestamp_part(timestamp_ns)->Ok_0;
    let t = crate::calendar::time_text(time);
    let n = s.len() as int;
    assert(s.subrange(n - 8, n - 6) =~= t.subrange(0, 2));
    assert(s.subrange(n - 5, n - 3) =~= t.subrange(3, 5));
    assert(s.subrange(n - 2, n) =~= t.subrange(6, 8));
}

} // verus!
