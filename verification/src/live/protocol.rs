//! The remote-account protocol: who may ask, and what is answered.

use crate::arrange;
use crate::arrange::Ranked;
use crate::binary64::Binary64;
use crate::calendar;
use crate::live::model;
use crate::text;
use base64::engine::general_purpose::URL_SAFE_NO_PAD;
use base64::Engine;
use chrono::DateTime;
use subtle::ConstantTimeEq;
use vstd::prelude::*;
use vstd::utf8::*;

verus! {

/// The answer to a request that is refused.
#[derive(Clone, Copy, Debug, PartialEq, Eq, Structural)]
pub enum Status {
    BadRequest,
    Unauthorized,
    InternalServerError,
}

#[derive(Clone, Copy, Debug, PartialEq, Eq, Structural)]
pub enum FillDirection {
    Long,
    Short,
}

impl FillDirection {
    pub open spec fn protocol_value(self) -> &'static str {
        match self {
            FillDirection::Long => "LONG",
            FillDirection::Short => "SHORT",
        }
    }

    pub fn as_protocol_value(&self) -> (r: &'static str)
        ensures
            r == self.protocol_value(),
    {
        match self {
            FillDirection::Long => "LONG",
            FillDirection::Short => "SHORT",
        }
    }
}

/// A simulated fill.
#[derive(Debug)]
pub struct HistoricalFill {
    pub trade_id: String,
    pub order_id: String,
    pub product_id: String,
    pub direction: FillDirection,
    pub price: Binary64,
    pub amount: Binary64,
    pub value: Binary64,
    pub fee: Binary64,
    pub created_at_ns: u64,
}

impl Clone for HistoricalFill {
    fn clone(&self) -> (r: Self)
        ensures
            r == *self,
    {
        HistoricalFill {
            trade_id: self.trade_id.clone(),
            order_id: self.order_id.clone(),
            product_id: self.product_id.clone(),
            direction: self.direction,
            price: self.price,
            amount: self.amount,
            value: self.value,
            fee: self.fee,
            created_at_ns: self.created_at_ns,
        }
    }
}

/// The span that the fills cover.
#[derive(Clone, Copy, Debug, PartialEq, Eq, Structural)]
pub struct HistoryWindow {
    pub start_at_ns: Option<u64>,
    pub end_at_ns: Option<u64>,
}

/// Where a page ended, and what the first page was asked for.
#[derive(Debug)]
pub struct HistoryCursor {
    pub coverage_start_at_ns: Option<u64>,
    pub coverage_end_at_ns: Option<u64>,
    pub filter_start_at_ns: Option<u64>,
    pub filter_end_at_ns: Option<u64>,
    pub created_at_ns: u64,
    pub trade_id: String,
}

impl Clone for HistoryCursor {
    fn clone(&self) -> (r: Self)
        ensures
            r == *self,
    {
        HistoryCursor {
            coverage_start_at_ns: self.coverage_start_at_ns,
            coverage_end_at_ns: self.coverage_end_at_ns,
            filter_start_at_ns: self.filter_start_at_ns,
            filter_end_at_ns: self.filter_end_at_ns,
            created_at_ns: self.created_at_ns,
            trade_id: self.trade_id.clone(),
        }
    }
}

/// What a page is asked for.
#[derive(Debug)]
pub struct AccountHistoryQuery {
    pub account_id: String,
    pub cursor: Option<HistoryCursor>,
    pub limit: Option<usize>,
    pub start_at: Option<String>,
    pub end_at: Option<String>,
}

#[derive(Debug)]
pub struct AccountHistory {
    pub account_id: String,
    pub record_type: &'static str,
    pub records: Vec<TradeFill>,
    pub coverage: Vec<HistoryCoverage>,
    pub next_cursor: Option<HistoryCursor>,
}

#[derive(Debug)]
pub struct TradeFill {
    pub account_id: String,
    pub exchange: &'static str,
    pub trade_id: String,
    pub order_id: Option<String>,
    pub product_id: String,
    pub direction: &'static str,
    pub price: Binary64,
    pub amount: Binary64,
    pub value: Binary64,
    pub value_currency: &'static str,
    pub fee: Binary64,
    pub fee_currency: &'static str,
    pub created_at: String,
}

#[derive(Debug, PartialEq, Eq)]
pub struct HistoryCoverage {
    pub account_id: String,
    pub start_at: Option<String>,
    pub end_at: Option<String>,
    pub complete: bool,
    pub detail: &'static str,
}

/// The instant that `DateTime::parse_from_rfc3339` and
/// `DateTime::timestamp_nanos_opt` read from a text, in nanoseconds.
pub uninterp spec fn parsed_instant(value: Seq<char>) -> Option<i64>;

/// What the engine `URL_SAFE_NO_PAD` of base64 encodes bytes as.
pub uninterp spec fn encoded(bytes: Seq<u8>) -> Seq<char>;

/// What the engine `URL_SAFE_NO_PAD` of base64 decodes a text to.
pub uninterp spec fn decoded(value: Seq<char>) -> Option<Seq<u8>>;

/// `DateTime::parse_from_rfc3339` and `DateTime::timestamp_nanos_opt`: the
/// named reading of the text.
#[verifier::external_body]
fn parse_instant(value: &str) -> (r: Option<i64>)
    ensures
        r == parsed_instant(value@),
{
    DateTime::parse_from_rfc3339(value).ok().and_then(|time| time.timestamp_nanos_opt())
}

/// `Engine::encode` with `URL_SAFE_NO_PAD`: the named text, which decodes to the
/// bytes again.
#[verifier::external_body]
fn encode_base64(bytes: &[u8]) -> (r: String)
    ensures
        r@ == encoded(bytes@),
        decoded(r@) == Some(bytes@),
{
    URL_SAFE_NO_PAD.encode(bytes)
}

/// `Engine::decode` with `URL_SAFE_NO_PAD`: the named bytes of the text.
#[verifier::external_body]
fn decode_base64(value: &str) -> (r: Option<Vec<u8>>)
    ensures
        match r {
            Some(bytes) => decoded(value@) == Some(bytes@),
            None => decoded(value@) is None,
        },
{
    URL_SAFE_NO_PAD.decode(value).ok()
}

/// `ConstantTimeEq::ct_eq` on byte slices: whether they hold the same bytes.
#[verifier::external_body]
fn same_bytes(a: &[u8], b: &[u8]) -> (r: bool)
    ensures
        r == (a@ == b@),
{
    a.ct_eq(b).into()
}

/// The text in which a cursor travels.
pub fn encode_cursor(json: &[u8]) -> (r: String)
    ensures
        r@ == encoded(json@),
        decoded(r@) == Some(json@),
{
    encode_base64(json)
}

/// The bytes of a cursor that came back.
pub fn decode_cursor(cursor: &str) -> (r: Result<Vec<u8>, Status>)
    ensures
        match decoded(cursor@) {
            Some(bytes) => r matches Ok(found) && found@ == bytes,
            None => r == Err::<Vec<u8>, Status>(Status::BadRequest),
        },
{
    match decode_base64(cursor) {
        Some(bytes) => Ok(bytes),
        None => Err(Status::BadRequest),
    }
}

/// Whether a request may be answered: no token is asked for, or the header
/// carries it.
pub open spec fn authorized(header: Option<Seq<char>>, expected: Option<Seq<char>>) -> bool {
    match expected {
        None => true,
        Some(token) => header == Some("Bearer "@ + token),
    }
}

pub open spec fn optional_text(value: Option<&str>) -> Option<Seq<char>> {
    match value {
        Some(value) => Some(value@),
        None => None,
    }
}

/// Lets a request pass or refuses it.
pub fn authorize(header: Option<&str>, expected: Option<&str>) -> (r: Result<(), Status>)
    ensures
        r == (if authorized(optional_text(header), optional_text(expected)) {
            Ok::<(), Status>(())
        } else {
            Err(Status::Unauthorized)
        }),
{
    let token: &str = match expected {
        Some(token) => token,
        None => {
            return Ok(());
        },
    };
    let actual: &str = match header {
        Some(actual) => actual,
        None => {
            return Err(Status::Unauthorized);
        },
    };
    let mut wanted: String = "Bearer ".to_owned();
    wanted.append(token);
    proof {
        encode_utf8_decode_utf8(wanted@);
        encode_utf8_decode_utf8(actual@);
    }
    if same_bytes(wanted.as_str().as_bytes(), actual.as_bytes()) {
        Ok(())
    } else {
        Err(Status::Unauthorized)
    }
}

/// The instant that a text gives, where it is none before 1970.
pub open spec fn instant(value: Seq<char>) -> Option<u64> {
    match parsed_instant(value) {
        Some(nanos) => if nanos < 0 {
            None
        } else {
            Some(nanos as u64)
        },
        None => None,
    }
}

fn parse_timestamp(value: &str) -> (r: Result<u64, Status>)
    ensures
        match instant(value@) {
            Some(nanos) => r == Ok::<u64, Status>(nanos),
            None => r == Err::<u64, Status>(Status::BadRequest),
        },
{
    match parse_instant(value) {
        Some(nanos) => if nanos < 0 {
            Err(Status::BadRequest)
        } else {
            Ok(nanos as u64)
        },
        None => Err(Status::BadRequest),
    }
}

/// An instant in the form `2026-08-12T03:10:00.000000000Z`.
pub open spec fn instant_text(timestamp_ns: u64) -> Seq<char> {
    calendar::day_text(calendar::stamp_day(timestamp_ns)) + "T"@ + calendar::time_text(
        calendar::time_of_day(timestamp_ns),
    ) + "."@ + text::padded((timestamp_ns % 1_000_000_000) as nat, 9) + "Z"@
}

fn format_timestamp(timestamp_ns: u64) -> (r: Result<String, Status>)
    ensures
        if timestamp_ns > i64::MAX {
            r == Err::<String, Status>(Status::InternalServerError)
        } else {
            r matches Ok(found) && found@ == instant_text(timestamp_ns)
        },
{
    if timestamp_ns > i64::MAX as u64 {
        return Err(Status::InternalServerError);
    }
    let mut out: String = String::new();
    calendar::push_clock(&mut out, timestamp_ns, "T");
    out.append(".");
    text::push_padded(&mut out, (timestamp_ns % 1_000_000_000) as u128, 9);
    out.append("Z");
    assert(out@ =~= instant_text(timestamp_ns));
    Ok(out)
}

/// What a page is taken from: fixed by the first page, whatever happens since.
#[derive(Clone, Copy, Debug, PartialEq, Eq, Structural)]
pub struct Snapshot {
    pub coverage_start_at_ns: Option<u64>,
    pub coverage_end_at_ns: Option<u64>,
    pub filter_start_at_ns: Option<u64>,
    pub filter_end_at_ns: Option<u64>,
}

impl HistoryCursor {
    pub open spec fn snapshot_of(self) -> Snapshot {
        Snapshot {
            coverage_start_at_ns: self.coverage_start_at_ns,
            coverage_end_at_ns: self.coverage_end_at_ns,
            filter_start_at_ns: self.filter_start_at_ns,
            filter_end_at_ns: self.filter_end_at_ns,
        }
    }
}

impl Snapshot {
    /// Whether a fill belongs to the pages.
    pub open spec fn admits(self, fill: HistoricalFill) -> bool {
        &&& self.coverage_end_at_ns matches Some(end) ==> fill.created_at_ns <= end
        &&& self.filter_start_at_ns matches Some(start) ==> fill.created_at_ns >= start
        &&& self.filter_end_at_ns matches Some(end) ==> fill.created_at_ns <= end
    }

    fn is_admitted(&self, fill: &HistoricalFill) -> (r: bool)
        ensures
            r == self.admits(*fill),
    {
        let covered: bool = match self.coverage_end_at_ns {
            Some(end) => fill.created_at_ns <= end,
            None => true,
        };
        let started: bool = match self.filter_start_at_ns {
            Some(start) => fill.created_at_ns >= start,
            None => true,
        };
        let ended: bool = match self.filter_end_at_ns {
            Some(end) => fill.created_at_ns <= end,
            None => true,
        };
        covered && started && ended
    }
}

/// The fills that belong to the pages.
pub open spec fn admitted(fills: Seq<HistoricalFill>, snapshot: Snapshot) -> Seq<HistoricalFill>
    decreases fills.len(),
{
    if fills.len() == 0 {
        fills
    } else if snapshot.admits(fills.last()) {
        admitted(fills.drop_last(), snapshot).push(fills.last())
    } else {
        admitted(fills.drop_last(), snapshot)
    }
}

/// Whether a fill is older than a place among the pages.
pub open spec fn older(fill: HistoricalFill, created_at_ns: u64, trade_id: Seq<char>) -> bool {
    fill.created_at_ns < created_at_ns || (fill.created_at_ns == created_at_ns && text::before(
        fill.trade_id@,
        trade_id,
    ))
}

/// The fills that are older than a place.
pub open spec fn all_older(
    fills: Seq<HistoricalFill>,
    created_at_ns: u64,
    trade_id: Seq<char>,
) -> Seq<HistoricalFill>
    decreases fills.len(),
{
    if fills.len() == 0 {
        fills
    } else if older(fills.last(), created_at_ns, trade_id) {
        all_older(fills.drop_last(), created_at_ns, trade_id).push(fills.last())
    } else {
        all_older(fills.drop_last(), created_at_ns, trade_id)
    }
}

impl Ranked for HistoricalFill {
    /// The newest first, those of one time by falling identifier.
    open spec fn ranks_before(self, other: Self) -> bool {
        older(other, self.created_at_ns, self.trade_id@)
    }

    proof fn lemma_ranks_asymmetric(a: Self, b: Self) {
        if text::before(a.trade_id@, b.trade_id@) {
            text::lemma_before_asymmetric(a.trade_id@, b.trade_id@);
        }
    }

    proof fn lemma_ranks_transitive(a: Self, b: Self, c: Self) {
        text::lemma_not_before_transitive(c.trade_id@, b.trade_id@, a.trade_id@);
    }

    fn is_before(&self, other: &Self) -> (r: bool) {
        other.created_at_ns < self.created_at_ns || (other.created_at_ns == self.created_at_ns
            && text::is_before(other.trade_id.as_str(), self.trade_id.as_str()))
    }
}

/// How many records a page holds at most.
pub open spec fn page_size(limit: Option<usize>) -> int {
    match limit {
        None => 100,
        Some(limit) => if limit < 1 {
            1
        } else if limit > 500 {
            500
        } else {
            limit as int
        },
    }
}

/// What the pages are taken from.
pub open spec fn snapshot_for(
    window: HistoryWindow,
    cursor: Option<HistoryCursor>,
    filter_start_at_ns: Option<u64>,
    filter_end_at_ns: Option<u64>,
) -> Snapshot {
    match cursor {
        Some(cursor) => cursor.snapshot_of(),
        None => Snapshot {
            coverage_start_at_ns: window.start_at_ns,
            coverage_end_at_ns: window.end_at_ns,
            filter_start_at_ns,
            filter_end_at_ns,
        },
    }
}

/// The fills of this page and of those after it.
pub open spec fn remaining(
    fills: Seq<HistoricalFill>,
    snapshot: Snapshot,
    cursor: Option<HistoryCursor>,
) -> Seq<HistoricalFill> {
    let sorted = arrange::arranged(admitted(fills, snapshot));
    match cursor {
        Some(cursor) => all_older(sorted, cursor.created_at_ns, cursor.trade_id@),
        None => sorted,
    }
}

/// The fills of this page.
pub open spec fn page(rest: Seq<HistoricalFill>, size: int) -> Seq<HistoricalFill> {
    if rest.len() > size {
        rest.take(size)
    } else {
        rest
    }
}

/// Whether all instants of a page can be written.
pub open spec fn writable(fills: Seq<HistoricalFill>, snapshot: Snapshot) -> bool {
    &&& forall|i: int| 0 <= i < fills.len() ==> (#[trigger] fills[i]).created_at_ns <= i64::MAX
    &&& snapshot.coverage_start_at_ns matches Some(start) ==> start <= i64::MAX
    &&& snapshot.coverage_end_at_ns matches Some(end) ==> end <= i64::MAX
}

/// Whether a record says what a fill is.
pub open spec fn is_record(
    record: TradeFill,
    fill: HistoricalFill,
    account_id: Seq<char>,
) -> bool {
    &&& record.account_id@ == account_id
    &&& record.exchange == "CFFEX"
    &&& record.trade_id == fill.trade_id
    &&& record.order_id == Some(fill.order_id)
    &&& record.product_id == fill.product_id
    &&& record.direction == fill.direction.protocol_value()
    &&& record.price == fill.price
    &&& record.amount == fill.amount
    &&& record.value == fill.value
    &&& record.value_currency == "CNY"
    &&& record.fee == fill.fee
    &&& record.fee_currency == "CNY"
    &&& record.created_at@ == instant_text(fill.created_at_ns)
}

pub open spec fn is_optional_instant(found: Option<String>, timestamp_ns: Option<u64>) -> bool {
    match timestamp_ns {
        Some(timestamp_ns) => found matches Some(value) && value@ == instant_text(timestamp_ns),
        None => found is None,
    }
}

/// Whether a statement of coverage is the one of a snapshot.
pub open spec fn is_coverage(
    coverage: HistoryCoverage,
    snapshot: Snapshot,
    account_id: Seq<char>,
) -> bool {
    &&& coverage.account_id@ == account_id
    &&& is_optional_instant(coverage.start_at, snapshot.coverage_start_at_ns)
    &&& is_optional_instant(coverage.end_at, snapshot.coverage_end_at_ns)
    &&& !coverage.complete
    &&& coverage.detail
        == "Bullet reconstructs lab0334 simulated fills from the configured Parquet seed and completed CTPD bars; this is not a broker execution ledger"
}

/// Whether a cursor points behind a page.
pub open spec fn is_next_cursor(
    cursor: Option<HistoryCursor>,
    rest: Seq<HistoricalFill>,
    size: int,
    snapshot: Snapshot,
) -> bool {
    if rest.len() > size {
        cursor == Some(
            HistoryCursor {
                coverage_start_at_ns: snapshot.coverage_start_at_ns,
                coverage_end_at_ns: snapshot.coverage_end_at_ns,
                filter_start_at_ns: snapshot.filter_start_at_ns,
                filter_end_at_ns: snapshot.filter_end_at_ns,
                created_at_ns: rest[size - 1].created_at_ns,
                trade_id: rest[size - 1].trade_id,
            },
        )
    } else {
        cursor is None
    }
}

/// Whether an answer is the page that was asked for.
pub open spec fn is_page(
    r: Result<AccountHistory, Status>,
    account_id: Seq<char>,
    rest: Seq<HistoricalFill>,
    size: int,
    snapshot: Snapshot,
) -> bool {
    let shown = page(rest, size);
    if !writable(shown, snapshot) {
        r == Err::<AccountHistory, Status>(Status::InternalServerError)
    } else {
        match r {
            Err(_) => false,
            Ok(history) => {
                &&& history.account_id@ == account_id
                &&& history.record_type == "TRADE_FILL_V1"
                &&& history.records@.len() == shown.len()
                &&& forall|i: int|
                    0 <= i < shown.len() ==> is_record(
                        #[trigger] history.records@[i],
                        shown[i],
                        account_id,
                    )
                &&& history.coverage@.len() == 1
                &&& is_coverage(history.coverage@[0], snapshot, account_id)
                &&& is_next_cursor(history.next_cursor, rest, size, snapshot)
            },
        }
    }
}

/// An instant that a filter gives, if it gives one: nothing where it is not
/// readable.
pub open spec fn bound(value: Option<String>) -> Option<Option<u64>> {
    match value {
        None => Some(None),
        Some(value) => match instant(value@) {
            Some(nanos) => Some(Some(nanos)),
            None => None,
        },
    }
}

fn parse_bound(value: &Option<String>) -> (r: Result<Option<u64>, Status>)
    ensures
        match bound(*value) {
            Some(found) => r == Ok::<Option<u64>, Status>(found),
            None => r == Err::<Option<u64>, Status>(Status::BadRequest),
        },
{
    match value {
        None => Ok(None),
        Some(value) => match parse_timestamp(value.as_str()) {
            Ok(nanos) => Ok(Some(nanos)),
            Err(status) => Err(status),
        },
    }
}

/// Whether a query asks for a page, and what is answered.
pub open spec fn is_answer(
    r: Result<AccountHistory, Status>,
    account_id: Seq<char>,
    fills: Seq<HistoricalFill>,
    window: HistoryWindow,
    query: AccountHistoryQuery,
) -> bool {
    match (bound(query.start_at), bound(query.end_at)) {
        (Some(start), Some(end)) => if start matches Some(from) && end matches Some(to) && from
            > to {
            r == Err::<AccountHistory, Status>(Status::BadRequest)
        } else {
            let snapshot = snapshot_for(window, query.cursor, start, end);
            is_page(
                r,
                account_id,
                remaining(fills, snapshot, query.cursor),
                page_size(query.limit),
                snapshot,
            )
        },
        _ => r == Err::<AccountHistory, Status>(Status::BadRequest),
    }
}

/// The history of the account; another account's is refused.
pub fn account_history(
    account_id: &str,
    fills: Vec<HistoricalFill>,
    window: HistoryWindow,
    query: &AccountHistoryQuery,
) -> (r: Result<AccountHistory, Status>)
    ensures
        if query.account_id@ != account_id@ {
            r == Err::<AccountHistory, Status>(Status::BadRequest)
        } else {
            is_answer(r, account_id@, fills@, window, *query)
        },
{
    if !text::same(query.account_id.as_str(), account_id) {
        return Err(Status::BadRequest);
    }
    page_history(account_id, fills, window, query)
}

/// One page of the fills, newest first.
pub fn page_history(
    account_id: &str,
    fills: Vec<HistoricalFill>,
    window: HistoryWindow,
    query: &AccountHistoryQuery,
) -> (r: Result<AccountHistory, Status>)
    ensures
        is_answer(r, account_id@, fills@, window, *query),
{
    let filter_start_at_ns: Option<u64> = parse_bound(&query.start_at)?;
    let filter_end_at_ns: Option<u64> = parse_bound(&query.end_at)?;
    page_between(account_id, fills, window, query, filter_start_at_ns, filter_end_at_ns)
}

/// One page of the fills, with the filters as instants.
pub fn page_between(
    account_id: &str,
    fills: Vec<HistoricalFill>,
    window: HistoryWindow,
    query: &AccountHistoryQuery,
    filter_start_at_ns: Option<u64>,
    filter_end_at_ns: Option<u64>,
) -> (r: Result<AccountHistory, Status>)
    ensures
        if filter_start_at_ns matches Some(from) && filter_end_at_ns matches Some(to) && from > to {
            r == Err::<AccountHistory, Status>(Status::BadRequest)
        } else {
            let snapshot = snapshot_for(
                window,
                query.cursor,
                filter_start_at_ns,
                filter_end_at_ns,
            );
            is_page(
                r,
                account_id@,
                remaining(fills@, snapshot, query.cursor),
                page_size(query.limit),
                snapshot,
            )
        },
{
    if let (Some(from), Some(to)) = (filter_start_at_ns, filter_end_at_ns) {
        if from > to {
            return Err(Status::BadRequest);
        }
    }
    let snapshot: Snapshot = match &query.cursor {
        Some(cursor) => Snapshot {
            coverage_start_at_ns: cursor.coverage_start_at_ns,
            coverage_end_at_ns: cursor.coverage_end_at_ns,
            filter_start_at_ns: cursor.filter_start_at_ns,
            filter_end_at_ns: cursor.filter_end_at_ns,
        },
        None => Snapshot {
            coverage_start_at_ns: window.start_at_ns,
            coverage_end_at_ns: window.end_at_ns,
            filter_start_at_ns,
            filter_end_at_ns,
        },
    };
    let sorted: Vec<HistoricalFill> = arrange::arrange(retain_admitted(fills, &snapshot));
    let rest: Vec<HistoricalFill> = match &query.cursor {
        Some(cursor) => retain_older(sorted, cursor.created_at_ns, cursor.trade_id.as_str()),
        None => sorted,
    };
    let size: usize = match query.limit {
        None => 100,
        Some(limit) => if limit < 1 {
            1
        } else if limit > 500 {
            500
        } else {
            limit
        },
    };
    let next_cursor: Option<HistoryCursor> = if rest.len() > size {
        Some(
            HistoryCursor {
                coverage_start_at_ns: snapshot.coverage_start_at_ns,
                coverage_end_at_ns: snapshot.coverage_end_at_ns,
                filter_start_at_ns: snapshot.filter_start_at_ns,
                filter_end_at_ns: snapshot.filter_end_at_ns,
                created_at_ns: rest[size - 1].created_at_ns,
                trade_id: rest[size - 1].trade_id.clone(),
            },
        )
    } else {
        None
    };
    let records: Vec<TradeFill> = match page_records(account_id, &rest, size) {
        Some(records) => records,
        None => {
            return Err(Status::InternalServerError);
        },
    };
    let start_at: Option<String> = format_optional(snapshot.coverage_start_at_ns)?;
    let end_at: Option<String> = format_optional(snapshot.coverage_end_at_ns)?;
    let coverage = HistoryCoverage {
        account_id: account_id.to_owned(),
        start_at,
        end_at,
        complete: false,
        detail:
            "Bullet reconstructs lab0334 simulated fills from the configured Parquet seed and completed CTPD bars; this is not a broker execution ledger",
    };
    Ok(
        AccountHistory {
            account_id: account_id.to_owned(),
            record_type: "TRADE_FILL_V1",
            records,
            coverage: vec![coverage],
            next_cursor,
        },
    )
}

fn format_optional(timestamp_ns: Option<u64>) -> (r: Result<Option<String>, Status>)
    ensures
        if timestamp_ns matches Some(value) && value > i64::MAX {
            r == Err::<Option<String>, Status>(Status::InternalServerError)
        } else {
            r matches Ok(found) && is_optional_instant(found, timestamp_ns)
        },
{
    match timestamp_ns {
        None => Ok(None),
        Some(value) => match format_timestamp(value) {
            Ok(found) => Ok(Some(found)),
            Err(status) => Err(status),
        },
    }
}

/// The records of a page, unless an instant cannot be written.
fn page_records(account_id: &str, rest: &Vec<HistoricalFill>, size: usize) -> (r: Option<
    Vec<TradeFill>,
>)
    ensures
        ({
            let shown = page(rest@, size as int);
            match r {
                None => exists|i: int|
                    0 <= i < shown.len() && (#[trigger] shown[i]).created_at_ns > i64::MAX,
                Some(records) => {
                    &&& records@.len() == shown.len()
                    &&& forall|i: int|
                        0 <= i < shown.len() ==> is_record(
                            #[trigger] records@[i],
                            shown[i],
                            account_id@,
                        )
                    &&& forall|i: int|
                        0 <= i < shown.len() ==> (#[trigger] shown[i]).created_at_ns <= i64::MAX
                },
            }
        }),
{
    let ghost shown = page(rest@, size as int);
    let count: usize = if rest.len() > size {
        size
    } else {
        rest.len()
    };
    let mut records: Vec<TradeFill> = Vec::new();
    let mut i: usize = 0;
    while i < count
        invariant
            i <= count <= rest@.len(),
            count == shown.len(),
            shown == page(rest@, size as int),
            records@.len() == i,
            forall|j: int| 0 <= j < i ==> is_record(#[trigger] records@[j], shown[j], account_id@),
            forall|j: int| 0 <= j < i ==> (#[trigger] shown[j]).created_at_ns <= i64::MAX,
        decreases count - i,
    {
        let fill: &HistoricalFill = &rest[i];
        assert(*fill == shown[i as int]);
        let created_at: String = match format_timestamp(fill.created_at_ns) {
            Ok(created_at) => created_at,
            Err(_) => {
                assert(shown[i as int].created_at_ns > i64::MAX);
                return None;
            },
        };
        records.push(
            TradeFill {
                account_id: account_id.to_owned(),
                exchange: "CFFEX",
                trade_id: fill.trade_id.clone(),
                order_id: Some(fill.order_id.clone()),
                product_id: fill.product_id.clone(),
                direction: fill.direction.as_protocol_value(),
                price: fill.price,
                amount: fill.amount,
                value: fill.value,
                value_currency: "CNY",
                fee: fill.fee,
                fee_currency: "CNY",
                created_at,
            },
        );
        i = i + 1;
    }
    Some(records)
}

fn retain_admitted(fills: Vec<HistoricalFill>, snapshot: &Snapshot) -> (r: Vec<HistoricalFill>)
    ensures
        r@ == admitted(fills@, *snapshot),
{
    let ghost all = fills@;
    let mut kept: Vec<HistoricalFill> = Vec::new();
    assert(all.take(0) =~= Seq::<HistoricalFill>::empty());
    for fill in it: fills
        invariant
            it.seq() == all,
            kept@ == admitted(all.take(it.index()), *snapshot),
    {
        proof {
            assert(all.take(it.index() + 1).drop_last() =~= all.take(it.index()));
        }
        if snapshot.is_admitted(&fill) {
            kept.push(fill);
        }
    }
    assert(all.take(all.len() as int) =~= all);
    kept
}

fn retain_older(fills: Vec<HistoricalFill>, created_at_ns: u64, trade_id: &str) -> (r: Vec<
    HistoricalFill,
>)
    ensures
        r@ == all_older(fills@, created_at_ns, trade_id@),
{
    let ghost all = fills@;
    let mut kept: Vec<HistoricalFill> = Vec::new();
    assert(all.take(0) =~= Seq::<HistoricalFill>::empty());
    for fill in it: fills
        invariant
            it.seq() == all,
            kept@ == all_older(all.take(it.index()), created_at_ns, trade_id@),
    {
        proof {
            assert(all.take(it.index() + 1).drop_last() =~= all.take(it.index()));
        }
        if fill.created_at_ns < created_at_ns || (fill.created_at_ns == created_at_ns
            && text::is_before(fill.trade_id.as_str(), trade_id)) {
            kept.push(fill);
        }
    }
    assert(all.take(all.len() as int) =~= all);
    kept
}

/// Whether no two fills share both time and identifier.
pub open spec fn distinct_fills(fills: Seq<HistoricalFill>) -> bool {
    forall|i: int, j: int|
        0 <= i < j < fills.len() ==> (#[trigger] fills[i]).created_at_ns != (
        #[trigger] fills[j]).created_at_ns || fills[i].trade_id@ != fills[j].trade_id@
}

proof fn lemma_admitted_from(fills: Seq<HistoricalFill>, snapshot: Snapshot, i: int)
    requires
        0 <= i < admitted(fills, snapshot).len(),
    ensures
        fills.contains(admitted(fills, snapshot)[i]),
    decreases fills.len(),
{
    if fills.len() > 0 {
        let rest = fills.drop_last();
        if i < admitted(rest, snapshot).len() {
            lemma_admitted_from(rest, snapshot, i);
            let m = choose|m: int| 0 <= m < rest.len() && rest[m] == admitted(rest, snapshot)[i];
            assert(fills[m] == rest[m]);
        } else {
            assert(fills[fills.len() - 1] == fills.last());
        }
    }
}

/// Distinct fills never tie.
proof fn lemma_admitted_untied(fills: Seq<HistoricalFill>, snapshot: Snapshot)
    requires
        distinct_fills(fills),
    ensures
        arrange::untied(admitted(fills, snapshot)),
    decreases fills.len(),
{
    if fills.len() > 0 {
        let rest = fills.drop_last();
        assert(distinct_fills(rest)) by {
            assert forall|i: int, j: int| 0 <= i < j < rest.len() implies (
            #[trigger] rest[i]).created_at_ns != (#[trigger] rest[j]).created_at_ns
                || rest[i].trade_id@ != rest[j].trade_id@ by {
                assert(fills[i] == rest[i] && fills[j] == rest[j]);
            }
        }
        lemma_admitted_untied(rest, snapshot);
        let front = admitted(rest, snapshot);
        let all = admitted(fills, snapshot);
        assert forall|i: int, j: int| 0 <= i < j < all.len() implies (
        #[trigger] all[i]).ranks_before(#[trigger] all[j]) || all[j].ranks_before(all[i]) by {
            assert(all[i] == front[i]);
            if j < front.len() {
                assert(all[j] == front[j]);
            } else {
                lemma_admitted_from(rest, snapshot, i);
                let m = choose|m: int| 0 <= m < rest.len() && rest[m] == front[i];
                assert(fills[m] == front[i]);
                assert(fills[fills.len() - 1] == all[j]);
                text::lemma_before_total(front[i].trade_id@, all[j].trade_id@);
            }
        }
    }
}

proof fn lemma_older_from(
    fills: Seq<HistoricalFill>,
    created_at_ns: u64,
    trade_id: Seq<char>,
    i: int,
)
    requires
        0 <= i < all_older(fills, created_at_ns, trade_id).len(),
    ensures
        fills.contains(all_older(fills, created_at_ns, trade_id)[i]),
    decreases fills.len(),
{
    if fills.len() > 0 {
        let rest = fills.drop_last();
        let front = all_older(rest, created_at_ns, trade_id);
        if i < front.len() {
            lemma_older_from(rest, created_at_ns, trade_id, i);
            let m = choose|m: int| 0 <= m < rest.len() && rest[m] == front[i];
            assert(fills[m] == rest[m]);
        } else {
            assert(fills[fills.len() - 1] == fills.last());
        }
    }
}

proof fn lemma_older_in_order(
    fills: Seq<HistoricalFill>,
    created_at_ns: u64,
    trade_id: Seq<char>,
)
    requires
        arrange::in_order(fills),
    ensures
        arrange::in_order(all_older(fills, created_at_ns, trade_id)),
    decreases fills.len(),
{
    if fills.len() > 0 {
        let rest = fills.drop_last();
        assert forall|i: int, j: int| 0 <= i < j < rest.len() implies !(
        #[trigger] rest[j]).ranks_before(#[trigger] rest[i]) by {
            assert(fills[i] == rest[i] && fills[j] == rest[j]);
        }
        lemma_older_in_order(rest, created_at_ns, trade_id);
        let front = all_older(rest, created_at_ns, trade_id);
        let all = all_older(fills, created_at_ns, trade_id);
        assert forall|i: int, j: int| 0 <= i < j < all.len() implies !(
        #[trigger] all[j]).ranks_before(#[trigger] all[i]) by {
            assert(all[i] == front[i]);
            if j < front.len() {
                assert(all[j] == front[j]);
            } else {
                lemma_older_from(rest, created_at_ns, trade_id, i);
                let m = choose|m: int| 0 <= m < rest.len() && rest[m] == front[i];
                assert(fills[m] == front[i]);
                assert(!fills[fills.len() - 1].ranks_before(fills[m]));
            }
        }
    }
}

/// Every page stands newest first.
pub proof fn law_pages_stand_newest_first(
    fills: Seq<HistoricalFill>,
    snapshot: Snapshot,
    cursor: Option<HistoryCursor>,
)
    ensures
        arrange::in_order(remaining(fills, snapshot, cursor)),
{
    arrange::law_arranged(admitted(fills, snapshot));
    if let Some(cursor) = cursor {
        lemma_older_in_order(
            arrange::arranged(admitted(fills, snapshot)),
            cursor.created_at_ns,
            cursor.trade_id@,
        );
    }
}

proof fn lemma_older_split(fills: Seq<HistoricalFill>, at: int, count: int)
    requires
        arrange::strictly_in_order(fills),
        0 <= at < fills.len(),
        0 <= count <= fills.len(),
    ensures
        all_older(fills.take(count), fills[at].created_at_ns, fills[at].trade_id@) == if count
            <= at + 1 {
            Seq::<HistoricalFill>::empty()
        } else {
            fills.subrange(at + 1, count)
        },
    decreases count,
{
    if count > 0 {
        lemma_older_split(fills, at, count - 1);
        assert(fills.take(count).drop_last() =~= fills.take(count - 1));
        let last = fills[count - 1];
        if count - 1 > at {
            assert(fills[at].ranks_before(fills[count - 1]));
            if count == at + 2 {
                assert(fills.subrange(at + 1, count) =~= Seq::<HistoricalFill>::empty().push(last));
            } else {
                assert(fills.subrange(at + 1, count) =~= fills.subrange(at + 1, count - 1).push(
                    last,
                ));
            }
        } else if count - 1 == at {
            text::lemma_before_irreflexive(last.trade_id@);
        } else {
            assert(fills[count - 1].ranks_before(fills[at]));
            HistoricalFill::lemma_ranks_asymmetric(fills[count - 1], fills[at]);
        }
    } else {
        assert(fills.take(0) =~= Seq::<HistoricalFill>::empty());
    }
}

/// What is older than a place among sorted fills is all from some fill on.
proof fn lemma_older_suffix(
    fills: Seq<HistoricalFill>,
    created_at_ns: u64,
    trade_id: Seq<char>,
) -> (start: int)
    requires
        arrange::strictly_in_order(fills),
    ensures
        0 <= start <= fills.len(),
        all_older(fills, created_at_ns, trade_id) == fills.skip(start),
    decreases fills.len(),
{
    if fills.len() == 0 {
        assert(fills.skip(0) =~= fills);
        0
    } else {
        let rest = fills.drop_last();
        let last = fills.last();
        assert forall|i: int, j: int| 0 <= i < j < rest.len() implies (
        #[trigger] rest[i]).ranks_before(#[trigger] rest[j]) by {
            assert(fills[i] == rest[i] && fills[j] == rest[j]);
        }
        let start = lemma_older_suffix(rest, created_at_ns, trade_id);
        if older(last, created_at_ns, trade_id) {
            assert(rest.skip(start).push(last) =~= fills.skip(start));
            start
        } else {
            if start < rest.len() {
                let early = rest[rest.len() - 1];
                assert(rest.skip(start)[rest.len() - 1 - start] == early);
                lemma_older_holds(rest, created_at_ns, trade_id, rest.len() - 1 - start);
                assert(fills[rest.len() - 1].ranks_before(fills[fills.len() - 1]));
                text::lemma_before_transitive(last.trade_id@, early.trade_id@, trade_id);
            }
            assert(rest.skip(rest.len() as int) =~= fills.skip(fills.len() as int));
            fills.len() as int
        }
    }
}

/// What was kept as older is older.
proof fn lemma_older_holds(
    fills: Seq<HistoricalFill>,
    created_at_ns: u64,
    trade_id: Seq<char>,
    i: int,
)
    requires
        0 <= i < all_older(fills, created_at_ns, trade_id).len(),
    ensures
        older(all_older(fills, created_at_ns, trade_id)[i], created_at_ns, trade_id),
    decreases fills.len(),
{
    if fills.len() > 0 {
        let rest = fills.drop_last();
        if i < all_older(rest, created_at_ns, trade_id).len() {
            lemma_older_holds(rest, created_at_ns, trade_id, i);
        }
    }
}

/// The cursor of any page leads to exactly what the page left over: following
/// cursors shows every fill once, and none twice.
pub proof fn law_cursors_lose_and_repeat_nothing(
    fills: Seq<HistoricalFill>,
    snapshot: Snapshot,
    before: Option<HistoryCursor>,
    cursor: HistoryCursor,
    size: int,
)
    requires
        distinct_fills(fills),
        0 < size < remaining(fills, snapshot, before).len(),
        is_next_cursor(Some(cursor), remaining(fills, snapshot, before), size, snapshot),
    ensures
        cursor.snapshot_of() == snapshot,
        remaining(fills, snapshot, Some(cursor)) == remaining(fills, snapshot, before).skip(size),
        page(remaining(fills, snapshot, before), size) + remaining(fills, snapshot, Some(cursor))
            == remaining(fills, snapshot, before),
{
    let sorted = arrange::arranged(admitted(fills, snapshot));
    let rest = remaining(fills, snapshot, before);
    lemma_admitted_untied(fills, snapshot);
    arrange::law_arranged_strictly(admitted(fills, snapshot));
    let start = match before {
        None => {
            assert(sorted.skip(0) =~= sorted);
            0
        },
        Some(place) => lemma_older_suffix(sorted, place.created_at_ns, place.trade_id@),
    };
    assert(rest == sorted.skip(start));
    assert(rest[size - 1] == sorted[start + size - 1]);
    lemma_older_split(sorted, start + size - 1, sorted.len() as int);
    assert(sorted.take(sorted.len() as int) =~= sorted);
    assert(sorted.subrange(start + size, sorted.len() as int) =~= rest.skip(size));
    assert(rest.take(size) + rest.skip(size) =~= rest);
}

/// Fills that come after the coverage of the first page do not enter its later
/// pages.
pub proof fn law_coverage_is_stable(
    fills: Seq<HistoricalFill>,
    later: HistoricalFill,
    snapshot: Snapshot,
    cursor: Option<HistoryCursor>,
)
    requires
        snapshot.coverage_end_at_ns matches Some(end) && later.created_at_ns > end,
    ensures
        remaining(fills.push(later), snapshot, cursor) == remaining(fills, snapshot, cursor),
{
    assert(fills.push(later).drop_last() =~= fills);
}

/// A target position as it is published.
#[derive(Clone, Debug, PartialEq, Eq)]
pub struct TargetPosition {
    pub symbol: String,
    pub target_instrument_id: String,
    pub exchange_id: String,
    pub contracts: Binary64,
    pub entry_price: Binary64,
    pub latest_price: Binary64,
    pub multiplier: Binary64,
    pub updated_at_ms: i64,
}

/// Whether a target is that of a model, shown as a position in a contract.
pub open spec fn is_published(
    r: TargetPosition,
    target: model::TargetPosition,
    target_instrument_id: Seq<char>,
) -> bool {
    &&& r.symbol == target.symbol
    &&& r.target_instrument_id@ == target_instrument_id
    &&& r.exchange_id == target.exchange_id
    &&& r.contracts == Binary64::of_int(target.contracts as int)
    &&& r.entry_price == target.entry_price
    &&& r.latest_price == target.latest_price
    &&& r.multiplier == target.multiplier
    &&& r.updated_at_ms == target.updated_at_ms
}

impl TargetPosition {
    /// The target of a model, shown as a position in a contract.
    pub fn of_model(target: &model::TargetPosition, target_instrument_id: &str) -> (r: Self)
        ensures
            r.symbol == target.symbol,
            r.target_instrument_id@ == target_instrument_id@,
            r.exchange_id == target.exchange_id,
            r.contracts == Binary64::of_int(target.contracts as int),
            r.entry_price == target.entry_price,
            r.latest_price == target.latest_price,
            r.multiplier == target.multiplier,
            r.updated_at_ms == target.updated_at_ms,
            is_published(r, *target, target_instrument_id@),
    {
        TargetPosition {
            symbol: target.symbol.clone(),
            target_instrument_id: target_instrument_id.to_owned(),
            exchange_id: target.exchange_id.clone(),
            contracts: Binary64::from_i64(target.contracts),
            entry_price: target.entry_price,
            latest_price: target.latest_price,
            multiplier: target.multiplier,
            updated_at_ms: target.updated_at_ms,
        }
    }
}

/// A position of the remote account. Futures exposure is not cash equity, so
/// the position is valued by its unrealised profit and not by its notional.
#[derive(Debug)]
pub struct Position {
    pub position_id: String,
    pub product_id: String,
    pub account_id: String,
    pub updated_at: i64,
    pub base_currency: Option<String>,
    pub quote_currency: Option<String>,
    pub amount: Binary64,
    pub position_price: Binary64,
    pub closable_price: Binary64,
    pub current_price: Binary64,
    pub notional_value: Binary64,
    pub notional_currency: Option<String>,
    pub settlement_currency: String,
    pub notional: Binary64,
    pub valuation: Binary64,
    pub floating_profit: Binary64,
    pub comment: String,
    pub margin: Option<Binary64>,
}

/// The exposure of a target.
pub open spec fn notional(target: TargetPosition) -> Binary64 {
    target.contracts.product(target.latest_price).product(target.multiplier)
}

/// The unrealised profit of a target.
pub open spec fn profit(target: TargetPosition) -> Binary64 {
    target.latest_price.difference(target.entry_price).product(target.contracts).product(
        target.multiplier,
    )
}

/// Whether a target can be shown.
pub open spec fn presentable(target: TargetPosition) -> bool {
    &&& target.contracts.finite()
    &&& target.entry_price.finite()
    &&& target.latest_price.finite()
    &&& target.multiplier.finite()
    &&& notional(target).finite()
    &&& profit(target).finite()
}

/// Whether a position shows a target.
pub open spec fn shows(position: Position, target: TargetPosition, account_id: Seq<char>) -> bool {
    &&& position.position_id@ == "BULLET/FUTURES/"@ + target.symbol@
    &&& position.product_id@ == "BULLET/FUTURES/"@ + target.target_instrument_id@
    &&& position.account_id@ == account_id
    &&& position.updated_at == target.updated_at_ms
    &&& position.base_currency == Some(target.symbol)
    &&& position.quote_currency matches Some(currency) && currency@ == "CNY"@
    &&& position.amount == target.contracts
    &&& position.position_price == target.entry_price
    &&& position.closable_price == target.latest_price
    &&& position.current_price == target.latest_price
    &&& position.notional_value == notional(target)
    &&& position.notional_currency matches Some(currency) && currency@ == "CNY"@
    &&& position.settlement_currency@ == "CNY"@
    &&& position.notional == notional(target)
    &&& position.valuation == profit(target)
    &&& position.floating_profit == profit(target)
    &&& position.comment@
        == "lab-0334 trusted baseline; simulated target only, no order-routing"@
    &&& position.margin is None
}

impl Position {
    pub fn from_target(account_id: &str, target: &TargetPosition) -> (r: Option<Self>)
        ensures
            match r {
                Some(position) => presentable(*target) && shows(position, *target, account_id@),
                None => !presentable(*target),
            },
    {
        let amount: Binary64 = target.contracts;
        let notional_value: Binary64 = amount.times(target.latest_price).times(target.multiplier);
        let floating_profit: Binary64 = target.latest_price.minus(target.entry_price).times(
            amount,
        ).times(target.multiplier);
        if !amount.is_finite() || !target.entry_price.is_finite()
            || !target.latest_price.is_finite() || !target.multiplier.is_finite()
            || !notional_value.is_finite() || !floating_profit.is_finite() {
            return None;
        }
        let mut position_id: String = "BULLET/FUTURES/".to_owned();
        position_id.append(target.symbol.as_str());
        let mut product_id: String = "BULLET/FUTURES/".to_owned();
        product_id.append(target.target_instrument_id.as_str());
        Some(
            Position {
                position_id,
                product_id,
                account_id: account_id.to_owned(),
                updated_at: target.updated_at_ms,
                base_currency: Some(target.symbol.clone()),
                quote_currency: Some("CNY".to_owned()),
                amount,
                position_price: target.entry_price,
                closable_price: target.latest_price,
                current_price: target.latest_price,
                notional_value,
                notional_currency: Some("CNY".to_owned()),
                settlement_currency: "CNY".to_owned(),
                notional: notional_value,
                valuation: floating_profit,
                floating_profit,
                comment: "lab-0334 trusted baseline; simulated target only, no order-routing".to_owned(),
                margin: None,
            },
        )
    }
}

/// The positions of an account: none for one that is not known, and none for a
/// target that cannot be shown.
pub open spec fn shown(targets: Seq<TargetPosition>) -> Seq<TargetPosition>
    decreases targets.len(),
{
    if targets.len() == 0 {
        targets
    } else if presentable(targets.last()) {
        shown(targets.drop_last()).push(targets.last())
    } else {
        shown(targets.drop_last())
    }
}

/// The positions that an account is answered with.
pub fn positions(account_id: &str, asked_for: &str, targets: &[TargetPosition]) -> (r: Vec<
    Position,
>)
    ensures
        ({
            let wanted = if asked_for@ == account_id@ {
                shown(targets@)
            } else {
                Seq::empty()
            };
            &&& r@.len() == wanted.len()
            &&& forall|i: int|
                0 <= i < wanted.len() ==> shows(#[trigger] r@[i], wanted[i], account_id@)
        }),
{
    let mut out: Vec<Position> = Vec::new();
    if !text::same(asked_for, account_id) {
        return out;
    }
    let ghost mut wanted: Seq<TargetPosition> = Seq::empty();
    let mut i: usize = 0;
    assert(targets@.take(0) =~= Seq::<TargetPosition>::empty());
    while i < targets.len()
        invariant
            i <= targets@.len(),
            wanted == shown(targets@.take(i as int)),
            out@.len() == wanted.len(),
            forall|j: int|
                0 <= j < wanted.len() ==> shows(#[trigger] out@[j], wanted[j], account_id@),
        decreases targets@.len() - i,
    {
        proof {
            assert(targets@.take(i + 1).drop_last() =~= targets@.take(i as int));
        }
        match Position::from_target(account_id, &targets[i]) {
            Some(position) => {
                out.push(position);
                proof {
                    wanted = wanted.push(targets@[i as int]);
                }
            },
            None => {},
        }
        i = i + 1;
    }
    assert(targets@.take(targets@.len() as int) =~= targets@);
    out
}

} // verus!
