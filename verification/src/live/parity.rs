//! Comparison of two candidate ledgers in a canonical form.
//!
//! Every record becomes one line of JSON with its numbers written to fourteen
//! decimal places. The lines of a ledger are put in order, so that two ledgers
//! agree exactly where their canonical texts do.

use crate::binary64::Binary64;
use crate::calendar;
use crate::decimal;
use crate::live::ctpd;
use crate::live::json;
use crate::ordered;
use crate::ordered::{TextMap, TextSet};
use crate::text;
use vstd::prelude::*;

verus! {

pub const DECIMAL_PLACES: u32 = 14;

#[derive(Clone, Copy, Debug, PartialEq, Eq, Structural)]
pub struct ParitySummary {
    pub decisions: usize,
    pub labels: usize,
    pub canonical_bytes: usize,
}

/// A decimal field of a reference file: its number, or why it is none.
pub type Reading = Result<Binary64, String>;

/// A decision of the reference ledger.
#[derive(Debug)]
pub struct ReferenceDecision {
    pub candidate_id: String,
    pub symbol: String,
    pub side: String,
    pub trade_type: String,
    pub candidate_policy_id: String,
    pub planned_exit_policy: String,
    pub prediction_asof_time: String,
    pub prediction_key: String,
    pub candidate_pred: Reading,
    pub history_count: String,
    pub history_max_label_available_time: String,
    pub decision: String,
    pub reject_reason: String,
    pub active_count: String,
    pub used_weight: Reading,
    pub candidate_weight: Reading,
    pub same_symbol_count: String,
    pub incumbent_trade_id: String,
    pub incumbent_candidate_policy_id: String,
    pub incumbent_pred: Option<Reading>,
    pub replacement_margin: Option<Reading>,
    pub capital_ok: String,
    pub symbol_ok: String,
}

/// A label of the reference ledger.
#[derive(Debug)]
pub struct ReferenceLabel {
    pub symbol: String,
    pub side: String,
    pub trade_type: String,
    pub candidate_policy_id: String,
    pub entry_time: String,
    pub entry_price: Reading,
    pub label_available_time: String,
    pub exit_time: String,
    pub exit_price: Reading,
    pub trade_return: Reading,
}

/// A decision of the replayed ledger.
#[derive(Clone, Debug)]
pub struct CandidateDecision {
    pub candidate_id: String,
    pub symbol: String,
    pub side: String,
    pub trade_type: String,
    pub candidate_policy_id: String,
    pub planned_exit_policy: String,
    pub prediction_asof_ns: u64,
    pub prediction_key: String,
    pub candidate_pred: Binary64,
    pub history_count: usize,
    pub history_max_label_available_ns: Option<u64>,
    pub decision: String,
    pub reject_reason: Option<String>,
    pub active_count: usize,
    pub used_weight: Binary64,
    pub candidate_weight: Binary64,
    pub same_symbol_count: usize,
    pub incumbent_candidate_id: Option<String>,
    pub incumbent_candidate_policy_id: Option<String>,
    pub incumbent_pred: Option<Binary64>,
    pub replacement_margin: Option<Binary64>,
    pub capital_ok: Option<bool>,
    pub symbol_ok: Option<bool>,
}

/// A label of the replayed ledger.
#[derive(Clone, Debug)]
pub struct CandidateLabel {
    pub symbol: String,
    pub side: String,
    pub trade_type: String,
    pub candidate_policy_id: String,
    pub entry_time_ns: u64,
    pub entry_price: Binary64,
    pub label_available_ns: u64,
    pub exit_price: Binary64,
    pub trade_return: Binary64,
}

/// A text as its `Debug` form writes it.
pub uninterp spec fn debug_text(value: Seq<char>) -> Seq<char>;

/// The `Debug` form of a string: the named text.
#[verifier::external_body]
fn debug_string(value: &str) -> (r: String)
    ensures
        r@ == debug_text(value@),
{
    format!("{value:?}")
}

/// A part of a canonical line: its text, or why there is none.
pub type Part = Result<Seq<char>, Seq<char>>;

pub open spec fn part(value: Result<String, String>) -> Part {
    match value {
        Ok(value) => Ok(value@),
        Err(error) => Err(error@),
    }
}

pub open spec fn parts(values: Seq<Result<String, String>>) -> Seq<Part> {
    values.map_values(|value: Result<String, String>| part(value))
}

/// The texts of parts, or the first error among them.
pub open spec fn gathered(values: Seq<Part>) -> Result<Seq<Seq<char>>, Seq<char>>
    decreases values.len(),
{
    if values.len() == 0 {
        Ok(Seq::empty())
    } else {
        match gathered(values.drop_last()) {
            Err(error) => Err(error),
            Ok(texts) => match values.last() {
                Err(error) => Err(error),
                Ok(value) => Ok(texts.push(value)),
            },
        }
    }
}

fn gather(values: Vec<Result<String, String>>) -> (r: Result<Vec<String>, String>)
    ensures
        match gathered(parts(values@)) {
            Ok(texts) => r matches Ok(found) && ctpd::contents(found@) == texts,
            Err(error) => r matches Err(message) && message@ == error,
        },
{
    let ghost all = parts(values@);
    let ghost given = values@;
    let mut out: Vec<String> = Vec::new();
    assert(all.take(0) =~= Seq::<Part>::empty());
    assert(ctpd::contents(out@) =~= Seq::<Seq<char>>::empty());
    for value in it: values
        invariant
            it.seq() == given,
            all == parts(given),
            given == values@,
            gathered(all.take(it.index())) == Ok::<Seq<Seq<char>>, Seq<char>>(
                ctpd::contents(out@),
            ),
    {
        proof {
            assert(all.take(it.index() + 1).drop_last() =~= all.take(it.index()));
            assert(all.take(it.index() + 1).last() == part(value));
        }
        match value {
            Ok(value) => {
                let ghost before = out@;
                out.push(value);
                assert(ctpd::contents(out@) =~= ctpd::contents(before).push(value@));
            },
            Err(error) => {
                proof {
                    lemma_gathered(all, it.index() + 1);
                }
                return Err(error);
            },
        }
    }
    assert(all.take(all.len() as int) =~= all);
    Ok(out)
}

proof fn lemma_gathered(values: Seq<Part>, count: int)
    requires
        0 <= count <= values.len(),
        gathered(values.take(count)) is Err,
    ensures
        gathered(values) == gathered(values.take(count)),
    decreases values.len(),
{
    if count == values.len() {
        assert(values.take(count) =~= values);
    } else {
        assert(values.drop_last().take(count) =~= values.take(count));
        lemma_gathered(values.drop_last(), count);
    }
}

/// A number to fourteen decimal places; zero has no sign.
pub open spec fn decimal_part(value: Binary64) -> Part {
    if !value.finite() {
        Err("canonical ledger contains a non-finite decimal"@)
    } else if value.zero() {
        Ok(decimal::fixed(Binary64::of_int(0), DECIMAL_PLACES as nat))
    } else {
        Ok(decimal::fixed(value, DECIMAL_PLACES as nat))
    }
}

pub fn decimal_number(value: Binary64) -> (r: Result<String, String>)
    ensures
        part(r) == decimal_part(value),
{
    if !value.is_finite() {
        return Err("canonical ledger contains a non-finite decimal".to_owned());
    }
    let normalized: Binary64 = if value.magnitude() == 0 {
        Binary64::from_u64(0)
    } else {
        value
    };
    Ok(decimal::fixed_text(normalized, DECIMAL_PLACES))
}

pub open spec fn reading_part(value: Reading) -> Part {
    match value {
        Ok(value) => decimal_part(value),
        Err(error) => Err(error@),
    }
}

fn decimal(value: &Reading) -> (r: Result<String, String>)
    ensures
        part(r) == reading_part(*value),
{
    match value {
        Ok(value) => decimal_number(*value),
        Err(error) => Err(error.clone()),
    }
}

pub open spec fn optional_reading_part(value: Option<Reading>) -> Part {
    match value {
        None => Ok(Seq::empty()),
        Some(value) => reading_part(value),
    }
}

fn optional_decimal(value: &Option<Reading>) -> (r: Result<String, String>)
    ensures
        part(r) == optional_reading_part(*value),
{
    match value {
        None => {
            let empty: String = String::new();
            assert(empty@ =~= Seq::<char>::empty());
            Ok(empty)
        },
        Some(value) => decimal(value),
    }
}

pub open spec fn optional_number_part(value: Option<Binary64>) -> Part {
    match value {
        None => Ok(Seq::empty()),
        Some(value) => decimal_part(value),
    }
}

fn optional_number(value: Option<Binary64>) -> (r: Result<String, String>)
    ensures
        part(r) == optional_number_part(value),
{
    match value {
        None => {
            let empty: String = String::new();
            assert(empty@ =~= Seq::<char>::empty());
            Ok(empty)
        },
        Some(value) => decimal_number(value),
    }
}

/// A count, written without leading zeros.
pub open spec fn unsigned_part(value: Seq<char>) -> Part {
    match text::count(value) {
        Ok(n) => Ok(text::numeral(n as nat)),
        Err(reason) => Err(
            "invalid unsigned integer "@ + debug_text(value) + ": "@ + reason@,
        ),
    }
}

fn refused_unsigned(value: &str, reason: &str) -> (r: String)
    ensures
        r@ == "invalid unsigned integer "@ + debug_text(value@) + ": "@ + reason@,
{
    let mut message: String = "invalid unsigned integer ".to_owned();
    message.append(debug_string(value).as_str());
    message.append(": ");
    message.append(reason);
    message
}

pub fn unsigned(value: &str) -> (r: Result<String, String>)
    ensures
        part(r) == unsigned_part(value@),
{
    match text::parse_count(value) {
        Ok(n) => {
            let mut out: String = String::new();
            text::push_numeral(&mut out, n as u128);
            assert(out@ =~= text::numeral(n as nat));
            Ok(out)
        },
        Err(reason) => Err(refused_unsigned(value, reason)),
    }
}

/// A truth value in lower case; nothing for no text.
pub open spec fn boolean_part(value: Seq<char>) -> Part {
    if value.len() == 0 {
        Ok(Seq::empty())
    } else if value == "True"@ || value == "true"@ {
        Ok("true"@)
    } else if value == "False"@ || value == "false"@ {
        Ok("false"@)
    } else {
        Err("invalid boolean "@ + debug_text(value))
    }
}

pub fn boolean(value: &str) -> (r: Result<String, String>)
    ensures
        part(r) == boolean_part(value@),
{
    if value.is_empty() {
        let empty: String = String::new();
        assert(empty@ =~= Seq::<char>::empty());
        return Ok(empty);
    }
    if text::same(value, "True") || text::same(value, "true") {
        return Ok("true".to_owned());
    }
    if text::same(value, "False") || text::same(value, "false") {
        return Ok("false".to_owned());
    }
    let mut message: String = "invalid boolean ".to_owned();
    message.append(debug_string(value).as_str());
    Err(message)
}

pub open spec fn optional_bool_text(value: Option<bool>) -> Seq<char> {
    match value {
        None => Seq::empty(),
        Some(true) => "true"@,
        Some(false) => "false"@,
    }
}

fn optional_bool(value: Option<bool>) -> (r: String)
    ensures
        r@ == optional_bool_text(value),
{
    match value {
        None => {
            let empty: String = String::new();
            assert(empty@ =~= Seq::<char>::empty());
            empty
        },
        Some(value) => if value {
            "true".to_owned()
        } else {
            "false".to_owned()
        },
    }
}

/// A timestamp in the form `2026-08-12 11:10:00`.
pub open spec fn timestamp_part(timestamp_ns: u64) -> Part {
    if timestamp_ns > i64::MAX {
        Err("timestamp is outside chrono range"@)
    } else {
        Ok(
            calendar::day_text(calendar::stamp_day(timestamp_ns)) + " "@ + calendar::time_text(
                calendar::time_of_day(timestamp_ns),
            ),
        )
    }
}

fn format_timestamp(value: u64) -> (r: Result<String, String>)
    ensures
        part(r) == timestamp_part(value),
{
    if value > i64::MAX as u64 {
        return Err("timestamp is outside chrono range".to_owned());
    }
    let mut out: String = String::new();
    calendar::push_clock(&mut out, value, " ");
    assert(out@ =~= calendar::day_text(calendar::stamp_day(value)) + " "@ + calendar::time_text(
        calendar::time_of_day(value),
    ));
    Ok(out)
}

pub open spec fn optional_timestamp_part(value: Option<u64>) -> Part {
    match value {
        None => Ok(Seq::empty()),
        Some(value) => timestamp_part(value),
    }
}

fn optional_timestamp(value: Option<u64>) -> (r: Result<String, String>)
    ensures
        part(r) == optional_timestamp_part(value),
{
    match value {
        None => {
            let empty: String = String::new();
            assert(empty@ =~= Seq::<char>::empty());
            Ok(empty)
        },
        Some(value) => format_timestamp(value),
    }
}

/// The fields of an identity behind the symbol.
pub open spec fn identity_names() -> Seq<Seq<char>> {
    seq![
        "time"@,
        "side"@,
        "trade_type"@,
        "candidate_policy_id"@,
    ]
}

/// What tells one candidate from another, as JSON.
pub open spec fn identity_json(
    symbol: Seq<char>,
    time: Seq<char>,
    side: Seq<char>,
    trade_type: Seq<char>,
    candidate_policy_id: Seq<char>,
) -> Seq<char> {
    "{"@ + (json::field("symbol"@, symbol) + (json::fields(
        identity_names(),
        seq![time, side, trade_type, candidate_policy_id],
        4,
    ) + "}"@))
}

fn identity_text(
    symbol: &str,
    time: &str,
    side: &str,
    trade_type: &str,
    candidate_policy_id: &str,
) -> (r: String)
    ensures
        r@ == identity_json(symbol@, time@, side@, trade_type@, candidate_policy_id@),
{
    let mut out: String = String::new();
    json::push_field(&mut out, "{", "symbol", symbol);
    let names: Vec<&'static str> = vec![
        "time",
        "side",
        "trade_type",
        "candidate_policy_id",
    ];
    let values: Vec<String> = vec![
        time.to_owned(),
        side.to_owned(),
        trade_type.to_owned(),
        candidate_policy_id.to_owned(),
    ];
    assert(json::spelled(names@) =~= identity_names());
    assert(values@.map_values(|value: String| value@) =~= seq![
        time@,
        side@,
        trade_type@,
        candidate_policy_id@,
    ]);
    json::push_fields(&mut out, &names, &values);
    out.append("}");
    assert(out@ =~= identity_json(symbol@, time@, side@, trade_type@, candidate_policy_id@));
    out
}

/// The fields of a decision behind its candidate.
pub open spec fn decision_names() -> Seq<Seq<char>> {
    seq![
        "planned_exit_policy"@,
        "prediction_key"@,
        "candidate_pred"@,
        "history_count"@,
        "history_max_label_available_time"@,
        "decision"@,
        "reject_reason"@,
        "active_count"@,
        "used_weight"@,
        "candidate_weight"@,
        "same_symbol_count"@,
        "incumbent_candidate"@,
        "incumbent_candidate_policy_id"@,
        "incumbent_pred"@,
        "replacement_margin"@,
        "capital_ok"@,
        "symbol_ok"@,
    ]
}

/// The values of those fields, from the parts of a decision.
pub open spec fn decision_values(p: Seq<Seq<char>>) -> Seq<Seq<char>> {
    seq![
        p[2],
        p[3],
        p[4],
        p[5],
        p[6],
        p[7],
        p[8],
        p[9],
        p[10],
        p[11],
        p[12],
        p[0],
        p[13],
        p[14],
        p[15],
        p[16],
        p[17],
    ]
}

/// The canonical line of a decision, from its parts: the incumbent, the
/// candidate, and the fields in their order.
pub open spec fn decision_json(p: Seq<Seq<char>>) -> Seq<char> {
    "{\"candidate\":"@ + (p[1] + (json::fields(decision_names(), decision_values(p), 17) + "}"@))
}

fn decision_text(p: &Vec<String>) -> (r: String)
    requires
        p@.len() == 18,
    ensures
        r@ == decision_json(ctpd::contents(p@)),
{
    let names: Vec<&'static str> = vec![
        "planned_exit_policy",
        "prediction_key",
        "candidate_pred",
        "history_count",
        "history_max_label_available_time",
        "decision",
        "reject_reason",
        "active_count",
        "used_weight",
        "candidate_weight",
        "same_symbol_count",
        "incumbent_candidate",
        "incumbent_candidate_policy_id",
        "incumbent_pred",
        "replacement_margin",
        "capital_ok",
        "symbol_ok",
    ];
    let values: Vec<String> = vec![
        p[2].clone(),
        p[3].clone(),
        p[4].clone(),
        p[5].clone(),
        p[6].clone(),
        p[7].clone(),
        p[8].clone(),
        p[9].clone(),
        p[10].clone(),
        p[11].clone(),
        p[12].clone(),
        p[0].clone(),
        p[13].clone(),
        p[14].clone(),
        p[15].clone(),
        p[16].clone(),
        p[17].clone(),
    ];
    assert(json::spelled(names@) =~= decision_names());
    assert(values@.map_values(|value: String| value@) =~= decision_values(ctpd::contents(p@)));
    let mut out: String = "{\"candidate\":".to_owned();
    out.append(p[1].as_str());
    json::push_fields(&mut out, &names, &values);
    out.append("}");
    assert(out@ =~= decision_json(ctpd::contents(p@)));
    out
}

/// The fields of a label behind its candidate.
pub open spec fn label_names() -> Seq<Seq<char>> {
    seq![
        "entry_price"@,
        "label_available_time"@,
        "exit_time"@,
        "exit_price"@,
        "trade_return"@,
    ]
}

/// The canonical line of a label, from its parts.
pub open spec fn label_json(p: Seq<Seq<char>>) -> Seq<char> {
    "{\"candidate\":"@ + (p[0] + (json::fields(
        label_names(),
        seq![p[1], p[2], p[3], p[4], p[5]],
        5,
    ) + "}"@))
}

fn label_text(p: &Vec<String>) -> (r: String)
    requires
        p@.len() == 6,
    ensures
        r@ == label_json(ctpd::contents(p@)),
{
    let names: Vec<&'static str> = vec![
        "entry_price",
        "label_available_time",
        "exit_time",
        "exit_price",
        "trade_return",
    ];
    let values: Vec<String> = vec![
        p[1].clone(),
        p[2].clone(),
        p[3].clone(),
        p[4].clone(),
        p[5].clone(),
    ];
    let ghost all = ctpd::contents(p@);
    assert(json::spelled(names@) =~= label_names());
    assert(values@.map_values(|value: String| value@) =~= seq![
        all[1],
        all[2],
        all[3],
        all[4],
        all[5],
    ]);
    let mut out: String = "{\"candidate\":".to_owned();
    out.append(p[0].as_str());
    json::push_fields(&mut out, &names, &values);
    out.append("}");
    assert(out@ =~= label_json(all));
    out
}

/// A candidate: its identifier, and what tells it from others.
pub struct Entry {
    pub id: Seq<char>,
    pub identity: Part,
}

/// Whether an identifier occurs.
pub open spec fn known(entries: Seq<Entry>, id: Seq<char>) -> bool {
    exists|i: int| 0 <= i < entries.len() && (#[trigger] entries[i]).id == id
}

/// The identity of a candidate.
pub open spec fn identity_of(entries: Seq<Entry>, id: Seq<char>) -> Part {
    entries[choose|i: int| 0 <= i < entries.len() && (#[trigger] entries[i]).id == id].identity
}

/// The first candidate that has no identity, or an identifier that another one
/// had before.
pub open spec fn ids_problem(entries: Seq<Entry>, duplicate: Seq<char>) -> Option<Seq<char>>
    decreases entries.len(),
{
    if entries.len() == 0 {
        None
    } else {
        match ids_problem(entries.drop_last(), duplicate) {
            Some(error) => Some(error),
            None => match entries.last().identity {
                Err(error) => Some(error),
                Ok(_) => if known(entries.drop_last(), entries.last().id) {
                    Some(duplicate)
                } else {
                    None
                },
            },
        }
    }
}

proof fn lemma_ids_problem(entries: Seq<Entry>, duplicate: Seq<char>, count: int)
    requires
        0 <= count <= entries.len(),
        ids_problem(entries.take(count), duplicate) is Some,
    ensures
        ids_problem(entries, duplicate) == ids_problem(entries.take(count), duplicate),
    decreases entries.len(),
{
    if count == entries.len() {
        assert(entries.take(count) =~= entries);
    } else {
        assert(entries.drop_last().take(count) =~= entries.take(count));
        lemma_ids_problem(entries.drop_last(), duplicate, count);
    }
}

pub open spec fn entry(given: (String, Result<String, String>)) -> Entry {
    Entry { id: given.0@, identity: part(given.1) }
}

pub open spec fn entries_of(given: Seq<(String, Result<String, String>)>) -> Seq<Entry> {
    given.map_values(|value: (String, Result<String, String>)| entry(value))
}

/// Whether a map holds the identities of candidates.
spec fn holds(identities: TextMap<String>, entries: Seq<Entry>) -> bool {
    &&& identities.well_formed()
    &&& forall|id: Seq<char>| #[trigger] identities.has(id) <==> known(entries, id)
    &&& forall|i: int|
        0 <= i < entries.len() ==> (#[trigger] entries[i]).identity == Ok::<Seq<char>, Seq<char>>(
            identities.at(entries[i].id)@,
        )
}

/// The identities of candidates by their identifiers.
fn index_identities(given: Vec<(String, Result<String, String>)>, duplicate: &str) -> (r: Result<
    TextMap<String>,
    String,
>)
    ensures
        match ids_problem(entries_of(given@), duplicate@) {
            Some(error) => r matches Err(message) && message@ == error,
            None => r matches Ok(identities) && holds(identities, entries_of(given@)),
        },
{
    let ghost all = given@;
    let ghost entries = entries_of(given@);
    let mut identities: TextMap<String> = TextMap::new();
    assert(entries.take(0) =~= Seq::<Entry>::empty());
    for value in it: given
        invariant
            it.seq() == all,
            given@ == all,
            entries == entries_of(all),
            ids_problem(entries.take(it.index()), duplicate@) is None,
            holds(identities, entries.take(it.index())),
    {
        let ghost shorter = entries.take(it.index());
        let ghost longer = entries.take(it.index() + 1);
        proof {
            assert(longer.drop_last() =~= shorter);
            assert(longer.last() == entry(value));
        }
        let (id, identity): (String, Result<String, String>) = value;
        match identity {
            Err(error) => {
                proof {
                    lemma_ids_problem(entries, duplicate@, it.index() + 1);
                }
                return Err(error);
            },
            Ok(identity) => {
                if identities.contains(id.as_str()) {
                    proof {
                        assert(known(shorter, id@));
                        lemma_ids_problem(entries, duplicate@, it.index() + 1);
                    }
                    return Err(duplicate.to_owned());
                }
                let ghost before = identities;
                let ghost key = id@;
                let ghost json = identity@;
                identities.set(id, identity);
                proof {
                    assert(!known(shorter, key));
                    assert forall|other: Seq<char>| #[trigger] identities.has(other) <==> known(
                        longer,
                        other,
                    ) by {
                        assert(before.has(other) <==> known(shorter, other));
                        if known(shorter, other) {
                            let i = choose|i: int|
                                0 <= i < shorter.len() && (#[trigger] shorter[i]).id == other;
                            assert(longer[i].id == other);
                        }
                        if known(longer, other) {
                            let i = choose|i: int|
                                0 <= i < longer.len() && (#[trigger] longer[i]).id == other;
                            if i < shorter.len() {
                                assert(shorter[i].id == other);
                            }
                        }
                        assert(longer[shorter.len() as int].id == key);
                    }
                    assert forall|i: int| 0 <= i < longer.len() implies (
                    #[trigger] longer[i]).identity == Ok::<Seq<char>, Seq<char>>(
                        identities.at(longer[i].id)@,
                    ) by {
                        if i < shorter.len() {
                            assert(longer[i] == shorter[i]);
                            assert(known(shorter, shorter[i].id));
                            assert(before.has(shorter[i].id));
                            assert(shorter[i].id != key);
                            assert(identities.at(longer[i].id) == before.at(shorter[i].id));
                        }
                    }
                }
            },
        }
    }
    assert(entries.take(entries.len() as int) =~= entries);
    Ok(identities)
}

/// The incumbent that a decision names, as JSON; nothing where it names none.
pub open spec fn incumbent_part(entries: Seq<Entry>, id: Seq<char>) -> Part {
    if id.len() == 0 {
        Ok(Seq::empty())
    } else if known(entries, id) {
        identity_of(entries, id)
    } else {
        Err("incumbent candidate "@ + id + " is absent from the decision ledger"@)
    }
}

fn optional_identity(
    candidate_id: &str,
    identities: &TextMap<String>,
    Ghost(entries): Ghost<Seq<Entry>>,
) -> (r: Result<String, String>)
    requires
        holds(*identities, entries),
    ensures
        part(r) == incumbent_part(entries, candidate_id@),
{
    if candidate_id.is_empty() {
        let empty: String = String::new();
        assert(empty@ =~= Seq::<char>::empty());
        return Ok(empty);
    }
    match identities.get(candidate_id) {
        Some(identity) => {
            proof {
                assert(known(entries, candidate_id@));
                let i = choose|i: int|
                    0 <= i < entries.len() && (#[trigger] entries[i]).id == candidate_id@;
                assert(entries[i].id == candidate_id@);
            }
            Ok(identity.clone())
        },
        None => {
            let mut message: String = "incumbent candidate ".to_owned();
            message.append(candidate_id);
            message.append(" is absent from the decision ledger");
            assert(!known(entries, candidate_id@));
            Err(message)
        },
    }
}

/// The canonical line of a decision.
pub open spec fn decision_line(p: Seq<Part>) -> Part {
    match gathered(p) {
        Err(error) => Err(error),
        Ok(texts) => Ok(decision_json(texts)),
    }
}

/// The canonical line of a label.
pub open spec fn label_line(p: Seq<Part>) -> Part {
    match gathered(p) {
        Err(error) => Err(error),
        Ok(texts) => Ok(label_json(texts)),
    }
}

proof fn lemma_gathered_length(values: Seq<Part>)
    ensures
        gathered(values) matches Ok(texts) ==> texts.len() == values.len(),
    decreases values.len(),
{
    if values.len() > 0 {
        lemma_gathered_length(values.drop_last());
    }
}

fn decision_of(p: Vec<Result<String, String>>) -> (r: Result<String, String>)
    requires
        p@.len() == 18,
    ensures
        part(r) == decision_line(parts(p@)),
{
    proof {
        lemma_gathered_length(parts(p@));
    }
    let values: Vec<String> = gather(p)?;
    assert(ctpd::contents(values@).len() == values@.len());
    Ok(decision_text(&values))
}

fn label_of(p: Vec<Result<String, String>>) -> (r: Result<String, String>)
    requires
        p@.len() == 6,
    ensures
        part(r) == label_line(parts(p@)),
{
    proof {
        lemma_gathered_length(parts(p@));
    }
    let values: Vec<String> = gather(p)?;
    assert(ctpd::contents(values@).len() == values@.len());
    Ok(label_text(&values))
}

pub open spec fn reference_entry(record: ReferenceDecision) -> Entry {
    Entry {
        id: record.candidate_id@,
        identity: Ok(
            identity_json(
                record.symbol@,
                record.prediction_asof_time@,
                record.side@,
                record.trade_type@,
                record.candidate_policy_id@,
            ),
        ),
    }
}

pub open spec fn reference_entries(records: Seq<ReferenceDecision>) -> Seq<Entry> {
    records.map_values(|record: ReferenceDecision| reference_entry(record))
}

/// The parts of a reference decision.
pub open spec fn reference_parts(record: ReferenceDecision, entries: Seq<Entry>) -> Seq<Part> {
    seq![
        incumbent_part(entries, record.incumbent_trade_id@),
        reference_entry(record).identity,
        Ok(record.planned_exit_policy@),
        Ok(record.prediction_key@),
        reading_part(record.candidate_pred),
        unsigned_part(record.history_count@),
        Ok(record.history_max_label_available_time@),
        Ok(record.decision@),
        Ok(record.reject_reason@),
        unsigned_part(record.active_count@),
        reading_part(record.used_weight),
        reading_part(record.candidate_weight),
        unsigned_part(record.same_symbol_count@),
        Ok(record.incumbent_candidate_policy_id@),
        optional_reading_part(record.incumbent_pred),
        optional_reading_part(record.replacement_margin),
        boolean_part(record.capital_ok@),
        boolean_part(record.symbol_ok@),
    ]
}

fn reference_line(
    record: &ReferenceDecision,
    identities: &TextMap<String>,
    Ghost(entries): Ghost<Seq<Entry>>,
) -> (r: Result<String, String>)
    requires
        holds(*identities, entries),
    ensures
        part(r) == decision_line(reference_parts(*record, entries)),
{
    let incumbent: Result<String, String> = optional_identity(
        record.incumbent_trade_id.as_str(),
        identities,
        Ghost(entries),
    );
    let p: Vec<Result<String, String>> = vec![
        incumbent,
        Ok(reference_identity(record)),
        Ok(record.planned_exit_policy.clone()),
        Ok(record.prediction_key.clone()),
        decimal(&record.candidate_pred),
        unsigned(record.history_count.as_str()),
        Ok(record.history_max_label_available_time.clone()),
        Ok(record.decision.clone()),
        Ok(record.reject_reason.clone()),
        unsigned(record.active_count.as_str()),
        decimal(&record.used_weight),
        decimal(&record.candidate_weight),
        unsigned(record.same_symbol_count.as_str()),
        Ok(record.incumbent_candidate_policy_id.clone()),
        optional_decimal(&record.incumbent_pred),
        optional_decimal(&record.replacement_margin),
        boolean(record.capital_ok.as_str()),
        boolean(record.symbol_ok.as_str()),
    ];
    assert(parts(p@) =~= reference_parts(*record, entries));
    decision_of(p)
}

fn reference_identity(record: &ReferenceDecision) -> (r: String)
    ensures
        Ok::<Seq<char>, Seq<char>>(r@) == reference_entry(*record).identity,
{
    identity_text(
        record.symbol.as_str(),
        record.prediction_asof_time.as_str(),
        record.side.as_str(),
        record.trade_type.as_str(),
        record.candidate_policy_id.as_str(),
    )
}

/// What tells a replayed candidate from others.
pub open spec fn candidate_identity(
    symbol: Seq<char>,
    time_ns: u64,
    side: Seq<char>,
    trade_type: Seq<char>,
    candidate_policy_id: Seq<char>,
) -> Part {
    match timestamp_part(time_ns) {
        Err(error) => Err(error),
        Ok(time) => Ok(identity_json(symbol, time, side, trade_type, candidate_policy_id)),
    }
}

fn candidate_identity_text(
    symbol: &str,
    time_ns: u64,
    side: &str,
    trade_type: &str,
    candidate_policy_id: &str,
) -> (r: Result<String, String>)
    ensures
        part(r) == candidate_identity(
            symbol@,
            time_ns,
            side@,
            trade_type@,
            candidate_policy_id@,
        ),
{
    let time: String = format_timestamp(time_ns)?;
    Ok(identity_text(symbol, time.as_str(), side, trade_type, candidate_policy_id))
}

pub open spec fn bullet_entry(record: CandidateDecision) -> Entry {
    Entry {
        id: record.candidate_id@,
        identity: candidate_identity(
            record.symbol@,
            record.prediction_asof_ns,
            record.side@,
            record.trade_type@,
            record.candidate_policy_id@,
        ),
    }
}

pub open spec fn bullet_entries(records: Seq<CandidateDecision>) -> Seq<Entry> {
    records.map_values(|record: CandidateDecision| bullet_entry(record))
}

pub open spec fn optional_content(value: Option<String>) -> Seq<char> {
    match value {
        Some(value) => value@,
        None => Seq::empty(),
    }
}

fn optional_text(value: &Option<String>) -> (r: String)
    ensures
        r@ == optional_content(*value),
{
    match value {
        Some(value) => value.clone(),
        None => {
            let empty: String = String::new();
            assert(empty@ =~= Seq::<char>::empty());
            empty
        },
    }
}

/// The parts of a replayed decision.
pub open spec fn bullet_parts(record: CandidateDecision, entries: Seq<Entry>) -> Seq<Part> {
    seq![
        incumbent_part(entries, optional_content(record.incumbent_candidate_id)),
        bullet_entry(record).identity,
        Ok(record.planned_exit_policy@),
        Ok(record.prediction_key@),
        decimal_part(record.candidate_pred),
        Ok(text::numeral(record.history_count as nat)),
        optional_timestamp_part(record.history_max_label_available_ns),
        Ok(record.decision@),
        Ok(optional_content(record.reject_reason)),
        Ok(text::numeral(record.active_count as nat)),
        decimal_part(record.used_weight),
        decimal_part(record.candidate_weight),
        Ok(text::numeral(record.same_symbol_count as nat)),
        Ok(optional_content(record.incumbent_candidate_policy_id)),
        optional_number_part(record.incumbent_pred),
        optional_number_part(record.replacement_margin),
        Ok(optional_bool_text(record.capital_ok)),
        Ok(optional_bool_text(record.symbol_ok)),
    ]
}

fn bullet_identity(record: &CandidateDecision) -> (r: Result<String, String>)
    ensures
        part(r) == bullet_entry(*record).identity,
{
    candidate_identity_text(
        record.symbol.as_str(),
        record.prediction_asof_ns,
        record.side.as_str(),
        record.trade_type.as_str(),
        record.candidate_policy_id.as_str(),
    )
}

fn bullet_line(
    record: &CandidateDecision,
    identities: &TextMap<String>,
    Ghost(entries): Ghost<Seq<Entry>>,
) -> (r: Result<String, String>)
    requires
        holds(*identities, entries),
    ensures
        part(r) == decision_line(bullet_parts(*record, entries)),
{
    let id: String = optional_text(&record.incumbent_candidate_id);
    let incumbent: Result<String, String> = optional_identity(
        id.as_str(),
        identities,
        Ghost(entries),
    );
    let p: Vec<Result<String, String>> = vec![
        incumbent,
        bullet_identity(record),
        Ok(record.planned_exit_policy.clone()),
        Ok(record.prediction_key.clone()),
        decimal_number(record.candidate_pred),
        Ok(text::numeral_text(record.history_count as u64)),
        optional_timestamp(record.history_max_label_available_ns),
        Ok(record.decision.clone()),
        Ok(optional_text(&record.reject_reason)),
        Ok(text::numeral_text(record.active_count as u64)),
        decimal_number(record.used_weight),
        decimal_number(record.candidate_weight),
        Ok(text::numeral_text(record.same_symbol_count as u64)),
        Ok(optional_text(&record.incumbent_candidate_policy_id)),
        optional_number(record.incumbent_pred),
        optional_number(record.replacement_margin),
        Ok(optional_bool(record.capital_ok)),
        Ok(optional_bool(record.symbol_ok)),
    ];
    assert(parts(p@) =~= bullet_parts(*record, entries));
    decision_of(p)
}

/// Whether an outcome is the canonical text of lines: each line once, in
/// increasing order, ended by a line feed.
pub open spec fn is_jsonl(r: Result<String, String>, lines: Seq<Seq<char>>) -> bool {
    if exists|i: int, j: int| 0 <= i < j < lines.len() && lines[i] == lines[j] {
        r matches Err(message) && message@ == "canonical ledger contains duplicate records"@
    } else {
        r matches Ok(found) && exists|keys: Seq<String>| #[trigger]
            lists(keys, lines) && found@ == ctpd::joined(ctpd::contents(keys)) + "\n"@
    }
}

/// Whether `keys` lists lines in increasing order.
pub open spec fn lists(keys: Seq<String>, lines: Seq<Seq<char>>) -> bool {
    &&& ordered::increasing(keys)
    &&& keys.len() == lines.len()
    &&& forall|line: Seq<char>| #[trigger] ordered::occurs(keys, line) <==> lines.contains(line)
}

fn canonical_jsonl(lines: Vec<String>) -> (r: Result<String, String>)
    ensures
        is_jsonl(r, ctpd::contents(lines@)),
{
    let ghost all = ctpd::contents(lines@);
    let ghost given = lines@;
    let mut set: TextSet = TextSet::new();
    assert(all.take(0) =~= Seq::<Seq<char>>::empty());
    for line in it: lines
        invariant
            it.seq() == given,
            lines@ == given,
            all == ctpd::contents(given),
            set.well_formed(),
            set.keys().len() == it.index(),
            forall|other: Seq<char>| #[trigger]
                set.has(other) <==> all.take(it.index()).contains(other),
            forall|i: int, j: int| 0 <= i < j < it.index() ==> all[i] != all[j],
    {
        let ghost before = set;
        let ghost shorter = all.take(it.index());
        let ghost longer = all.take(it.index() + 1);
        let ghost here = line@;
        proof {
            assert(all[it.index()] == here);
            assert(longer =~= shorter.push(here));
        }
        if !set.insert(line) {
            proof {
                assert(before.has(here));
                assert(shorter.contains(here));
                let i = choose|i: int| 0 <= i < shorter.len() && shorter[i] == here;
                assert(all[i] == all[it.index()]);
            }
            return Err("canonical ledger contains duplicate records".to_owned());
        }
        proof {
            assert(!shorter.contains(here)) by {
                assert(!before.has(here));
            }
            assert forall|i: int, j: int| 0 <= i < j < it.index() + 1 implies all[i] != all[j] by {
                if j == it.index() {
                    assert(shorter[i] == all[i]);
                }
            }
            assert forall|other: Seq<char>| #[trigger] set.has(other) <==> longer.contains(
                other,
            ) by {
                assert(before.has(other) <==> shorter.contains(other));
                if shorter.contains(other) {
                    let i = choose|i: int| 0 <= i < shorter.len() && shorter[i] == other;
                    assert(longer[i] == other);
                }
                if longer.contains(other) {
                    let i = choose|i: int| 0 <= i < longer.len() && longer[i] == other;
                    if i < shorter.len() {
                        assert(shorter[i] == other);
                    }
                }
                assert(longer[shorter.len() as int] == here);
            }
        }
    }
    assert(all.take(all.len() as int) =~= all);
    proof {
        set.lemma_increasing();
        assert forall|line: Seq<char>| #[trigger] ordered::occurs(set.keys(), line)
            <==> all.contains(line) by {
            assert(set.has(line) <==> all.contains(line));
        }
        assert(lists(set.keys(), all));
    }
    let keys: Vec<String> = set.into_keys();
    let mut out: String = ctpd::join_lines(&keys);
    out.append("\n");
    Ok(out)
}

/// Whether an outcome is the canonical text of a ledger of decisions.
pub open spec fn is_ledger(
    r: Result<String, String>,
    entries: Seq<Entry>,
    duplicate: Seq<char>,
    lines: Seq<Part>,
) -> bool {
    match ids_problem(entries, duplicate) {
        Some(error) => r matches Err(message) && message@ == error,
        None => is_lines(r, lines),
    }
}

/// Whether an outcome is the canonical text of lines, or the first error among
/// them.
pub open spec fn is_lines(r: Result<String, String>, lines: Seq<Part>) -> bool {
    match gathered(lines) {
        Err(error) => r matches Err(message) && message@ == error,
        Ok(texts) => is_jsonl(r, texts),
    }
}

/// The canonical text of lines, or the first error among them.
pub fn canonical_lines(lines: Vec<Result<String, String>>) -> (r: Result<String, String>)
    ensures
        is_lines(r, parts(lines@)),
{
    canonical_jsonl(gather(lines)?)
}

/// The lines of a reference ledger.
pub open spec fn reference_lines(records: Seq<ReferenceDecision>) -> Seq<Part> {
    records.map_values(
        |record: ReferenceDecision|
            decision_line(reference_parts(record, reference_entries(records))),
    )
}

/// The lines of a replayed ledger.
pub open spec fn bullet_lines(records: Seq<CandidateDecision>) -> Seq<Part> {
    records.map_values(
        |record: CandidateDecision| decision_line(bullet_parts(record, bullet_entries(records))),
    )
}

/// The candidates of a reference ledger by their identifiers.
fn reference_identities(records: &[ReferenceDecision]) -> (r: Result<TextMap<String>, String>)
    ensures
        match ids_problem(
            reference_entries(records@),
            "reference decisions contain duplicate candidate_id values"@,
        ) {
            Some(error) => r matches Err(message) && message@ == error,
            None => r matches Ok(identities) && holds(identities, reference_entries(records@)),
        },
{
    let ghost entries = reference_entries(records@);
    let mut given: Vec<(String, Result<String, String>)> = Vec::new();
    let mut i: usize = 0;
    assert(entries_of(given@) =~= entries.take(0));
    while i < records.len()
        invariant
            i <= records@.len(),
            entries == reference_entries(records@),
            entries_of(given@) == entries.take(i as int),
        decreases records@.len() - i,
    {
        let ghost before = given@;
        given.push((records[i].candidate_id.clone(), Ok(reference_identity(&records[i]))));
        assert(entries_of(given@) =~= entries_of(before).push(entries[i as int]));
        assert(entries.take(i + 1) =~= entries.take(i as int).push(entries[i as int]));
        i = i + 1;
    }
    assert(entries.take(entries.len() as int) =~= entries);
    index_identities(given, "reference decisions contain duplicate candidate_id values")
}

/// The lines of a reference ledger, in the order of its records.
fn reference_texts(records: &[ReferenceDecision], identities: &TextMap<String>) -> (r: Vec<
    Result<String, String>,
>)
    requires
        holds(*identities, reference_entries(records@)),
    ensures
        parts(r@) == reference_lines(records@),
{
    let ghost entries = reference_entries(records@);
    let ghost all = reference_lines(records@);
    let mut lines: Vec<Result<String, String>> = Vec::new();
    let mut i: usize = 0;
    assert(parts(lines@) =~= all.take(0));
    while i < records.len()
        invariant
            i <= records@.len(),
            entries == reference_entries(records@),
            all == reference_lines(records@),
            holds(*identities, entries),
            parts(lines@) == all.take(i as int),
        decreases records@.len() - i,
    {
        let ghost before = lines@;
        lines.push(reference_line(&records[i], identities, Ghost(entries)));
        assert(parts(lines@) =~= parts(before).push(all[i as int]));
        assert(all.take(i + 1) =~= all.take(i as int).push(all[i as int]));
        i = i + 1;
    }
    assert(all.take(all.len() as int) =~= all);
    lines
}

pub fn canonical_reference_decisions(records: &[ReferenceDecision]) -> (r: Result<String, String>)
    ensures
        is_ledger(
            r,
            reference_entries(records@),
            "reference decisions contain duplicate candidate_id values"@,
            reference_lines(records@),
        ),
{
    let identities: TextMap<String> = reference_identities(records)?;
    canonical_lines(reference_texts(records, &identities))
}

/// The candidates of a replayed ledger by their identifiers.
fn bullet_identities(records: &[CandidateDecision]) -> (r: Result<TextMap<String>, String>)
    ensures
        match ids_problem(
            bullet_entries(records@),
            "Bullet decisions contain duplicate candidate_id values"@,
        ) {
            Some(error) => r matches Err(message) && message@ == error,
            None => r matches Ok(identities) && holds(identities, bullet_entries(records@)),
        },
{
    let ghost entries = bullet_entries(records@);
    let mut given: Vec<(String, Result<String, String>)> = Vec::new();
    let mut i: usize = 0;
    assert(entries_of(given@) =~= entries.take(0));
    while i < records.len()
        invariant
            i <= records@.len(),
            entries == bullet_entries(records@),
            entries_of(given@) == entries.take(i as int),
        decreases records@.len() - i,
    {
        let ghost before = given@;
        given.push((records[i].candidate_id.clone(), bullet_identity(&records[i])));
        assert(entries_of(given@) =~= entries_of(before).push(entries[i as int]));
        assert(entries.take(i + 1) =~= entries.take(i as int).push(entries[i as int]));
        i = i + 1;
    }
    assert(entries.take(entries.len() as int) =~= entries);
    index_identities(given, "Bullet decisions contain duplicate candidate_id values")
}

/// The lines of a replayed ledger, in the order of its records.
fn bullet_texts(records: &[CandidateDecision], identities: &TextMap<String>) -> (r: Vec<
    Result<String, String>,
>)
    requires
        holds(*identities, bullet_entries(records@)),
    ensures
        parts(r@) == bullet_lines(records@),
{
    let ghost entries = bullet_entries(records@);
    let ghost all = bullet_lines(records@);
    let mut lines: Vec<Result<String, String>> = Vec::new();
    let mut i: usize = 0;
    assert(parts(lines@) =~= all.take(0));
    while i < records.len()
        invariant
            i <= records@.len(),
            entries == bullet_entries(records@),
            all == bullet_lines(records@),
            holds(*identities, entries),
            parts(lines@) == all.take(i as int),
        decreases records@.len() - i,
    {
        let ghost before = lines@;
        lines.push(bullet_line(&records[i], identities, Ghost(entries)));
        assert(parts(lines@) =~= parts(before).push(all[i as int]));
        assert(all.take(i + 1) =~= all.take(i as int).push(all[i as int]));
        i = i + 1;
    }
    assert(all.take(all.len() as int) =~= all);
    lines
}

pub fn canonical_bullet_decisions(records: &[CandidateDecision]) -> (r: Result<String, String>)
    ensures
        is_ledger(
            r,
            bullet_entries(records@),
            "Bullet decisions contain duplicate candidate_id values"@,
            bullet_lines(records@),
        ),
{
    let identities: TextMap<String> = bullet_identities(records)?;
    canonical_lines(bullet_texts(records, &identities))
}

/// The parts of a reference label.
pub open spec fn reference_label_parts(record: ReferenceLabel) -> Seq<Part> {
    seq![
        Ok(
            identity_json(
                record.symbol@,
                record.entry_time@,
                record.side@,
                record.trade_type@,
                record.candidate_policy_id@,
            ),
        ),
        reading_part(record.entry_price),
        Ok(record.label_available_time@),
        Ok(record.exit_time@),
        reading_part(record.exit_price),
        reading_part(record.trade_return),
    ]
}

/// The parts of a replayed label; it is available when it exits.
pub open spec fn bullet_label_parts(record: CandidateLabel) -> Seq<Part> {
    seq![
        candidate_identity(
            record.symbol@,
            record.entry_time_ns,
            record.side@,
            record.trade_type@,
            record.candidate_policy_id@,
        ),
        decimal_part(record.entry_price),
        timestamp_part(record.label_available_ns),
        timestamp_part(record.label_available_ns),
        decimal_part(record.exit_price),
        decimal_part(record.trade_return),
    ]
}

/// The line of a replayed label. The time of its exit is read before anything
/// else.
pub open spec fn bullet_label_line(record: CandidateLabel) -> Part {
    match timestamp_part(record.label_available_ns) {
        Err(error) => Err(error),
        Ok(_) => label_line(bullet_label_parts(record)),
    }
}

pub open spec fn reference_label_lines(records: Seq<ReferenceLabel>) -> Seq<Part> {
    records.map_values(|record: ReferenceLabel| label_line(reference_label_parts(record)))
}

pub open spec fn bullet_label_lines(records: Seq<CandidateLabel>) -> Seq<Part> {
    records.map_values(|record: CandidateLabel| bullet_label_line(record))
}

fn reference_label(record: &ReferenceLabel) -> (r: Result<String, String>)
    ensures
        part(r) == label_line(reference_label_parts(*record)),
{
    let p: Vec<Result<String, String>> = vec![
        Ok(
            identity_text(
                record.symbol.as_str(),
                record.entry_time.as_str(),
                record.side.as_str(),
                record.trade_type.as_str(),
                record.candidate_policy_id.as_str(),
            ),
        ),
        decimal(&record.entry_price),
        Ok(record.label_available_time.clone()),
        Ok(record.exit_time.clone()),
        decimal(&record.exit_price),
        decimal(&record.trade_return),
    ];
    assert(parts(p@) =~= reference_label_parts(*record));
    label_of(p)
}

fn bullet_label(record: &CandidateLabel) -> (r: Result<String, String>)
    ensures
        part(r) == bullet_label_line(*record),
{
    let exit_time: String = format_timestamp(record.label_available_ns)?;
    let p: Vec<Result<String, String>> = vec![
        candidate_identity_text(
            record.symbol.as_str(),
            record.entry_time_ns,
            record.side.as_str(),
            record.trade_type.as_str(),
            record.candidate_policy_id.as_str(),
        ),
        decimal_number(record.entry_price),
        Ok(exit_time.clone()),
        Ok(exit_time),
        decimal_number(record.exit_price),
        decimal_number(record.trade_return),
    ];
    assert(parts(p@) =~= bullet_label_parts(*record));
    label_of(p)
}

pub fn canonical_reference_labels(records: &[ReferenceLabel]) -> (r: Result<String, String>)
    ensures
        is_lines(r, reference_label_lines(records@)),
{
    let ghost all = reference_label_lines(records@);
    let mut lines: Vec<Result<String, String>> = Vec::new();
    let mut i: usize = 0;
    while i < records.len()
        invariant
            i <= records@.len(),
            all == reference_label_lines(records@),
            parts(lines@) == all.take(i as int),
        decreases records@.len() - i,
    {
        let ghost before = lines@;
        lines.push(reference_label(&records[i]));
        assert(parts(lines@) =~= parts(before).push(all[i as int]));
        assert(all.take(i + 1) =~= all.take(i as int).push(all[i as int]));
        i = i + 1;
    }
    assert(all.take(all.len() as int) =~= all);
    canonical_lines(lines)
}

pub fn canonical_bullet_labels(records: &[CandidateLabel]) -> (r: Result<String, String>)
    ensures
        is_lines(r, bullet_label_lines(records@)),
{
    let ghost all = bullet_label_lines(records@);
    let mut lines: Vec<Result<String, String>> = Vec::new();
    let mut i: usize = 0;
    while i < records.len()
        invariant
            i <= records@.len(),
            all == bullet_label_lines(records@),
            parts(lines@) == all.take(i as int),
        decreases records@.len() - i,
    {
        let ghost before = lines@;
        lines.push(bullet_label(&records[i]));
        assert(parts(lines@) =~= parts(before).push(all[i as int]));
        assert(all.take(i + 1) =~= all.take(i as int).push(all[i as int]));
        i = i + 1;
    }
    assert(all.take(all.len() as int) =~= all);
    canonical_lines(lines)
}

/// Where the first line feed stands, from a place on.
pub open spec fn feed_at(value: Seq<char>, from: int) -> int
    decreases value.len() - from,
{
    if from >= value.len() || value[from] == '\n' {
        from
    } else {
        feed_at(value, from + 1)
    }
}

/// A line without the carriage return before its line feed.
pub open spec fn unreturned(line: Seq<char>) -> Seq<char> {
    if line.len() > 0 && line.last() == '\r' {
        line.drop_last()
    } else {
        line
    }
}

/// The lines of a text, from a place on.
pub open spec fn lines_from(value: Seq<char>, from: int) -> Seq<Seq<char>>
    decreases value.len() - from,
{
    let end = feed_at(value, from);
    if from < 0 || from >= value.len() || end < from {
        Seq::empty()
    } else if end >= value.len() {
        seq![value.subrange(from, value.len() as int)]
    } else {
        seq![unreturned(value.subrange(from, end))] + lines_from(value, end + 1)
    }
}

proof fn lemma_feed_at(value: Seq<char>, from: int)
    requires
        0 <= from <= value.len(),
    ensures
        from <= feed_at(value, from) <= value.len(),
        feed_at(value, from) < value.len() ==> value[feed_at(value, from)] == '\n',
    decreases value.len() - from,
{
    if from < value.len() && value[from] != '\n' {
        lemma_feed_at(value, from + 1);
    }
}

/// The lines of a text.
fn split_lines(value: &str) -> (r: Vec<String>)
    ensures
        ctpd::contents(r@) == lines_from(value@, 0),
{
    let all: Vec<char> = text::characters(value);
    let mut lines: Vec<String> = Vec::new();
    let mut from: usize = 0;
    assert(ctpd::contents(lines@) + lines_from(all@, 0) =~= lines_from(all@, 0));
    while from < all.len()
        invariant
            from <= all@.len(),
            ctpd::contents(lines@) + lines_from(all@, from as int) == lines_from(all@, 0),
        decreases all@.len() - from,
    {
        let mut end: usize = from;
        while end < all.len() && all[end] != '\n'
            invariant
                from <= end <= all@.len(),
                feed_at(all@, from as int) == feed_at(all@, end as int),
            decreases all@.len() - end,
        {
            end = end + 1;
        }
        assert(end == feed_at(all@, from as int));
        let ghost before = lines@;
        if end == all.len() {
            let line: String = text::from_characters(&all, from, end);
            lines.push(line);
            assert(ctpd::contents(lines@) =~= ctpd::contents(before).push(line@));
            assert(ctpd::contents(before) + lines_from(all@, from as int) =~= ctpd::contents(lines@)
                + Seq::<Seq<char>>::empty());
            assert(lines_from(all@, end as int) =~= Seq::<Seq<char>>::empty());
            from = end;
        } else {
            let stop: usize = if end > from && all[end - 1] == '\r' {
                end - 1
            } else {
                end
            };
            let line: String = text::from_characters(&all, from, stop);
            assert(line@ =~= unreturned(all@.subrange(from as int, end as int)));
            lines.push(line);
            assert(ctpd::contents(lines@) =~= ctpd::contents(before).push(line@));
            assert(ctpd::contents(before) + lines_from(all@, from as int) =~= ctpd::contents(lines@)
                + lines_from(all@, end + 1));
            from = end + 1;
        }
    }
    assert(ctpd::contents(lines@) + Seq::<Seq<char>>::empty() =~= ctpd::contents(lines@));
    lines
}

/// The first place at which two lists of lines differ, or where the shorter one
/// ends.
pub open spec fn first_difference(a: Seq<Seq<char>>, b: Seq<Seq<char>>, from: int) -> int
    decreases a.len() - from,
{
    if from >= a.len() || from >= b.len() || a[from] != b[from] {
        from
    } else {
        first_difference(a, b, from + 1)
    }
}

/// A line of a list, or a mark behind its end.
pub open spec fn line_or_end(lines: Seq<Seq<char>>, at: int) -> Seq<char> {
    if 0 <= at < lines.len() {
        lines[at]
    } else {
        "<end>"@
    }
}

/// The report of a difference.
pub open spec fn mismatch(name: Seq<char>, reference: Seq<char>, bullet: Seq<char>) -> Seq<char> {
    let a = lines_from(reference, 0);
    let b = lines_from(bullet, 0);
    let at = first_difference(a, b, 0);
    "lab0334 parity failed for "@ + name + " at canonical line "@ + text::numeral((at + 1) as nat)
        + ": reference="@ + line_or_end(a, at) + " bullet="@ + line_or_end(b, at)
}

/// Whether two canonical texts agree; a difference is reported with its first
/// line.
pub fn compare(name: &str, reference: &str, bullet: &str) -> (r: Result<(), String>)
    ensures
        if reference@ == bullet@ {
            r is Ok
        } else {
            r matches Err(message) && message@ == mismatch(name@, reference@, bullet@)
        },
{
    if text::same(reference, bullet) {
        return Ok(());
    }
    let a: Vec<String> = split_lines(reference);
    let b: Vec<String> = split_lines(bullet);
    let ghost left = ctpd::contents(a@);
    let ghost right = ctpd::contents(b@);
    let mut at: usize = 0;
    while at < a.len() && at < b.len() && text::same(a[at].as_str(), b[at].as_str())
        invariant
            at <= a@.len(),
            left == ctpd::contents(a@),
            right == ctpd::contents(b@),
            first_difference(left, right, 0) == first_difference(left, right, at as int),
        decreases a@.len() - at,
    {
        assert(left[at as int] == a@[at as int]@ && right[at as int] == b@[at as int]@);
        at = at + 1;
    }
    proof {
        if at < a@.len() && at < b@.len() {
            assert(left[at as int] == a@[at as int]@ && right[at as int] == b@[at as int]@);
        }
    }
    let mut message: String = "lab0334 parity failed for ".to_owned();
    message.append(name);
    message.append(" at canonical line ");
    text::push_numeral(&mut message, at as u128 + 1);
    message.append(": reference=");
    if at < a.len() {
        message.append(a[at].as_str());
    } else {
        message.append("<end>");
    }
    message.append(" bullet=");
    if at < b.len() {
        message.append(b[at].as_str());
    } else {
        message.append("<end>");
    }
    Err(message)
}

/// Whether an outcome is that of comparing two pairs of canonical texts, the
/// decisions first.
pub open spec fn is_verdict(
    r: Result<ParitySummary, String>,
    reference_decisions: Result<String, String>,
    bullet_decisions: Result<String, String>,
    reference_labels: Result<String, String>,
    bullet_labels: Result<String, String>,
    decisions: int,
    labels: int,
) -> bool {
    match (reference_decisions, bullet_decisions) {
        (Err(error), _) => r == Err::<ParitySummary, String>(error),
        (_, Err(error)) => r == Err::<ParitySummary, String>(error),
        (Ok(a), Ok(b)) => if a@ != b@ {
            r matches Err(message) && message@ == mismatch("decisions"@, a@, b@)
        } else {
            match (reference_labels, bullet_labels) {
                (Err(error), _) => r == Err::<ParitySummary, String>(error),
                (_, Err(error)) => r == Err::<ParitySummary, String>(error),
                (Ok(c), Ok(d)) => if c@ != d@ {
                    r matches Err(message) && message@ == mismatch("labels"@, c@, d@)
                } else {
                    r matches Ok(summary) && summary.decisions == decisions && summary.labels
                        == labels && ({
                        let bytes = vstd::utf8::encode_utf8(a@).len() + vstd::utf8::encode_utf8(
                            c@,
                        ).len();
                        bytes <= usize::MAX ==> summary.canonical_bytes == bytes
                    })
                },
            }
        },
    }
}

/// Whether an outcome is that of comparing a replayed ledger with its reference.
pub open spec fn is_verification(
    r: Result<ParitySummary, String>,
    decisions: Seq<CandidateDecision>,
    labels: Seq<CandidateLabel>,
    reference_decisions: Seq<ReferenceDecision>,
    reference_labels: Seq<ReferenceLabel>,
) -> bool {
    exists|
        a: Result<String, String>,
        b: Result<String, String>,
        c: Result<String, String>,
        d: Result<String, String>,
    |
        {
            &&& is_ledger(
                a,
                reference_entries(reference_decisions),
                "reference decisions contain duplicate candidate_id values"@,
                reference_lines(reference_decisions),
            )
            &&& is_ledger(
                b,
                bullet_entries(decisions),
                "Bullet decisions contain duplicate candidate_id values"@,
                bullet_lines(decisions),
            )
            &&& is_lines(c, reference_label_lines(reference_labels))
            &&& is_lines(d, bullet_label_lines(labels))
            &&& #[trigger] is_verdict(
                r,
                a,
                b,
                c,
                d,
                decisions.len() as int,
                labels.len() as int,
            )
        }
}

/// Compares a replayed ledger with its reference: every candidate decision and
/// every label has to agree.
pub fn verify(
    decisions: &[CandidateDecision],
    labels: &[CandidateLabel],
    reference_decisions: &[ReferenceDecision],
    reference_labels: &[ReferenceLabel],
) -> (r: Result<ParitySummary, String>)
    ensures
        is_verification(
            r,
            decisions@,
            labels@,
            reference_decisions@,
            reference_labels@,
        ),
{
    let a: Result<String, String> = canonical_reference_decisions(reference_decisions);
    let b: Result<String, String> = canonical_bullet_decisions(decisions);
    let c: Result<String, String> = canonical_reference_labels(reference_labels);
    let d: Result<String, String> = canonical_bullet_labels(labels);
    let r = verdict(&a, &b, &c, &d, decisions.len(), labels.len());
    assert(is_verdict(r, a, b, c, d, decisions@.len() as int, labels@.len() as int));
    r
}

/// Compares two pairs of canonical texts.
pub fn verdict(
    reference_decisions: &Result<String, String>,
    bullet_decisions: &Result<String, String>,
    reference_labels: &Result<String, String>,
    bullet_labels: &Result<String, String>,
    decisions: usize,
    labels: usize,
) -> (r: Result<ParitySummary, String>)
    ensures
        is_verdict(
            r,
            *reference_decisions,
            *bullet_decisions,
            *reference_labels,
            *bullet_labels,
            decisions as int,
            labels as int,
        ),
{
    let a: &String = match reference_decisions {
        Ok(a) => a,
        Err(error) => {
            return Err(error.clone());
        },
    };
    let b: &String = match bullet_decisions {
        Ok(b) => b,
        Err(error) => {
            return Err(error.clone());
        },
    };
    compare("decisions", a.as_str(), b.as_str())?;
    let c: &String = match reference_labels {
        Ok(c) => c,
        Err(error) => {
            return Err(error.clone());
        },
    };
    let d: &String = match bullet_labels {
        Ok(d) => d,
        Err(error) => {
            return Err(error.clone());
        },
    };
    compare("labels", c.as_str(), d.as_str())?;
    let first: usize = a.as_str().len();
    let second: usize = c.as_str().len();
    let canonical_bytes: usize = match first.checked_add(second) {
        Some(sum) => sum,
        None => usize::MAX,
    };
    Ok(ParitySummary { decisions, labels, canonical_bytes })
}

/// Two ledgers with the same lines have the same canonical text: in which order
/// the records came does not matter.
pub proof fn law_record_order_does_not_matter(
    a: Seq<String>,
    b: Seq<String>,
    lines: Seq<Seq<char>>,
    other: Seq<Seq<char>>,
)
    requires
        lists(a, lines),
        lists(b, other),
        forall|line: Seq<char>| #[trigger] lines.contains(line) <==> other.contains(line),
    ensures
        ctpd::contents(a) == ctpd::contents(b),
{
    ordered::lemma_same_members(a, b);
}

} // verus!
