//! The market-data feed: its event stream, and the recovery of closed bars.

use crate::arrange;
use crate::arrange::Ranked;
use crate::binary64::Binary64;
use crate::fixed_capital::HistoryBar;
use crate::live::market_time;
use crate::text;
use vstd::prelude::*;
use vstd::utf8::*;

verus! {

/// The longest span that one recovery request asks for: a day.
pub const KLINE_RECOVERY_CHUNK_MS: i64 = 86_400_000;

/// A one-minute bar as the feed sends it.
#[derive(Clone, Copy, Debug, PartialEq, Eq, Structural)]
pub struct CtpdKline {
    pub start_ms: i64,
    pub open: Binary64,
    pub high: Binary64,
    pub low: Binary64,
    pub close: Binary64,
    pub volume: i64,
    pub money: Binary64,
    pub open_interest: Binary64,
    pub closed: bool,
}

/// Whether a bar of the feed makes sense.
pub open spec fn plausible(kline: CtpdKline) -> bool {
    &&& kline.start_ms >= 0
    &&& kline.open.finite() && kline.high.finite() && kline.low.finite() && kline.close.finite()
    &&& kline.money.finite() && kline.open_interest.finite()
    &&& kline.open.positive() && kline.low.positive()
    &&& kline.open.at_most(kline.high) && kline.close.at_most(kline.high)
    &&& kline.low.at_most(kline.open) && kline.low.at_most(kline.close)
    &&& kline.volume >= 0
    &&& kline.money.value() >= 0
    &&& kline.open_interest.value() >= 0
}

/// The bar of history that a bar of the feed stands for, labelled by its end.
pub open spec fn bar_of(kline: CtpdKline) -> Result<HistoryBar, Seq<char>> {
    if !plausible(kline) {
        Err("CTPD Kline has invalid market values"@)
    } else if kline.start_ms + 60_000 > i64::MAX {
        Err("CTPD Kline timestamp overflow"@)
    } else {
        match market_time::feed_nanoseconds((kline.start_ms + 60_000) as i64) {
            Err(error) => Err(error),
            Ok(timestamp_ns) => Ok(
                HistoryBar {
                    timestamp_ns,
                    open: kline.open,
                    high: kline.high,
                    low: kline.low,
                    close: kline.close,
                    volume: Binary64::of_int(kline.volume as int),
                    money: kline.money,
                    open_interest: kline.open_interest,
                },
            ),
        }
    }
}

pub fn history_bar_from_kline(kline: CtpdKline) -> (r: Result<HistoryBar, String>)
    ensures
        match bar_of(kline) {
            Ok(bar) => r == Ok::<HistoryBar, String>(bar),
            Err(error) => r matches Err(message) && message@ == error,
        },
{
    if kline.start_ms < 0 || !kline.open.is_finite() || !kline.high.is_finite()
        || !kline.low.is_finite() || !kline.close.is_finite() || !kline.money.is_finite()
        || !kline.open_interest.is_finite() || !kline.open.is_positive() || kline.high.is_less(
        kline.open,
    ) || kline.high.is_less(kline.close) || !kline.low.is_positive() || kline.open.is_less(
        kline.low,
    ) || kline.close.is_less(kline.low) || kline.volume < 0 || kline.money.is_below_zero()
        || kline.open_interest.is_below_zero() {
        return Err("CTPD Kline has invalid market values".to_owned());
    }
    let end_ms: i64 = match kline.start_ms.checked_add(60_000) {
        Some(end_ms) => end_ms,
        None => {
            return Err("CTPD Kline timestamp overflow".to_owned());
        },
    };
    let timestamp_ns: u64 = market_time::timestamp_ns_from_ctpd_ms(end_ms)?;
    Ok(
        HistoryBar {
            timestamp_ns,
            open: kline.open,
            high: kline.high,
            low: kline.low,
            close: kline.close,
            volume: Binary64::from_i64(kline.volume),
            money: kline.money,
            open_interest: kline.open_interest,
        },
    )
}

/// The windows into which a span is cut: a day each, the last one shorter.
pub open spec fn windows(start_ms: int, end_ms: int) -> Seq<(i64, i64)>
    decreases end_ms - start_ms,
{
    if start_ms >= end_ms {
        Seq::empty()
    } else {
        let next = if start_ms + KLINE_RECOVERY_CHUNK_MS < end_ms {
            start_ms + KLINE_RECOVERY_CHUNK_MS
        } else {
            end_ms
        };
        seq![(start_ms as i64, next as i64)] + windows(next, end_ms)
    }
}

pub fn kline_recovery_windows(start_ms: i64, end_ms: i64) -> (r: Vec<(i64, i64)>)
    ensures
        r@ == windows(start_ms as int, end_ms as int),
{
    let mut found: Vec<(i64, i64)> = Vec::new();
    let mut cursor: i64 = start_ms;
    assert(found@ + windows(cursor as int, end_ms as int) =~= windows(
        start_ms as int,
        end_ms as int,
    ));
    while cursor < end_ms
        invariant
            found@ + windows(cursor as int, end_ms as int) == windows(
                start_ms as int,
                end_ms as int,
            ),
        decreases end_ms - cursor,
    {
        let next: i64 = match cursor.checked_add(KLINE_RECOVERY_CHUNK_MS) {
            Some(next) => if next < end_ms {
                next
            } else {
                end_ms
            },
            None => end_ms,
        };
        let ghost before = found@;
        found.push((cursor, next));
        assert(before + windows(cursor as int, end_ms as int) =~= found@ + windows(
            next as int,
            end_ms as int,
        ));
        cursor = next;
    }
    assert(found@ + windows(cursor as int, end_ms as int) =~= found@);
    found
}

/// The windows of a span follow each other without a gap or an overlap, start
/// and end with it, and none is longer than a day.
pub proof fn law_windows_tile_the_span(start_ms: i64, end_ms: i64)
    requires
        start_ms < end_ms,
    ensures
        ({
            let w = windows(start_ms as int, end_ms as int);
            &&& w.len() > 0
            &&& w[0].0 == start_ms
            &&& w.last().1 == end_ms
            &&& forall|i: int|
                0 <= i < w.len() ==> 0 < (#[trigger] w[i]).1 - w[i].0 <= KLINE_RECOVERY_CHUNK_MS
            &&& forall|i: int, j: int|
                0 <= i && j == i + 1 && j < w.len() ==> (#[trigger] w[i]).1 == (#[trigger] w[j]).0
        }),
    decreases end_ms - start_ms,
{
    let w = windows(start_ms as int, end_ms as int);
    let next = if start_ms + KLINE_RECOVERY_CHUNK_MS < end_ms {
        start_ms + KLINE_RECOVERY_CHUNK_MS
    } else {
        end_ms as int
    };
    let rest = windows(next, end_ms as int);
    assert(w =~= seq![(start_ms, next as i64)] + rest);
    if next < end_ms {
        law_windows_tile_the_span(next as i64, end_ms);
        assert(w.last() == rest.last());
        assert forall|i: int| 0 <= i < w.len() implies 0 < (#[trigger] w[i]).1 - w[i].0
            <= KLINE_RECOVERY_CHUNK_MS by {
            if i > 0 {
                assert(w[i] == rest[i - 1]);
            }
        }
        assert forall|i: int, j: int| 0 <= i && j == i + 1 && j < w.len() implies (
        #[trigger] w[i]).1 == (#[trigger] w[j]).0 by {
            assert(w[j] == rest[j - 1]);
            if i > 0 {
                assert(w[i] == rest[i - 1]);
            }
        }
    }
}

/// The milliseconds that are to be recovered, from the last known bar until now.
pub open spec fn missed_span(last_bar_ns: Option<u64>, now_ms: i64) -> Result<
    (int, int),
    Seq<char>,
> {
    match last_bar_ns {
        None => Err("cannot recover CTPD Klines before Parquet history is seeded"@),
        Some(last) => if last > i64::MAX {
            Err("timestamp outside chrono range"@)
        } else if now_ms < last / 1_000_000 {
            Err("CTPD clock precedes the seeded Parquet history"@)
        } else {
            Ok(((last / 1_000_000) as int, now_ms as int))
        },
    }
}

/// The windows in which the closed bars since the last known one are asked for.
pub fn recovery_windows(last_bar_ns: Option<u64>, now_ms: i64) -> (r: Result<
    Vec<(i64, i64)>,
    String,
>)
    ensures
        match missed_span(last_bar_ns, now_ms) {
            Err(error) => r matches Err(message) && message@ == error,
            Ok(span) => r matches Ok(found) && found@ == windows(span.0, span.1),
        },
{
    match last_bar_ns {
        None => Err("cannot recover CTPD Klines before Parquet history is seeded".to_owned()),
        Some(last) => {
            let last_ms: i64 = market_time::ctpd_ms_from_timestamp_ns(last)?;
            if now_ms < last_ms {
                return Err("CTPD clock precedes the seeded Parquet history".to_owned());
            }
            Ok(kline_recovery_windows(last_ms, now_ms))
        },
    }
}

/// A recovered bar and the market that it belongs to.
#[derive(Debug)]
pub struct RecoveredKline {
    pub market_instrument_id: String,
    pub bar: HistoryBar,
}

impl Ranked for RecoveredKline {
    /// By time and market.
    open spec fn ranks_before(self, other: Self) -> bool {
        self.bar.timestamp_ns < other.bar.timestamp_ns || (self.bar.timestamp_ns
            == other.bar.timestamp_ns && text::before(
            self.market_instrument_id@,
            other.market_instrument_id@,
        ))
    }

    proof fn lemma_ranks_asymmetric(a: Self, b: Self) {
        if text::before(a.market_instrument_id@, b.market_instrument_id@) {
            text::lemma_before_asymmetric(a.market_instrument_id@, b.market_instrument_id@);
        }
    }

    proof fn lemma_ranks_transitive(a: Self, b: Self, c: Self) {
        text::lemma_not_before_transitive(
            a.market_instrument_id@,
            b.market_instrument_id@,
            c.market_instrument_id@,
        );
    }

    fn is_before(&self, other: &Self) -> (r: bool) {
        self.bar.timestamp_ns < other.bar.timestamp_ns || (self.bar.timestamp_ns
            == other.bar.timestamp_ns && text::is_before(
            self.market_instrument_id.as_str(),
            other.market_instrument_id.as_str(),
        ))
    }
}

/// Puts recovered bars in the order of time, those of one time in the order of
/// their markets.
pub fn sort_recovered_klines(recovered: &mut Vec<RecoveredKline>)
    ensures
        final(recovered)@ == arrange::arranged(old(recovered)@),
{
    let mut taken: Vec<RecoveredKline> = Vec::new();
    std::mem::swap(&mut taken, recovered);
    let mut sorted: Vec<RecoveredKline> = arrange::arrange(taken);
    std::mem::swap(&mut sorted, recovered);
}

/// The address of the tick stream of a market.
pub fn tick_url(base_url: &str, market_instrument_id: &str) -> (r: String)
    ensures
        r@ == text::without_end(base_url@, '/') + "/v1/ticks?instrument_id="@
            + market_instrument_id@,
{
    let mut url: String = text::trim_end_of(base_url, '/');
    url.append("/v1/ticks?instrument_id=");
    url.append(market_instrument_id);
    url
}

/// The address of the closed bars of a market in a window.
pub fn kline_url(base_url: &str, market_instrument_id: &str, start_ms: i64, end_ms: i64) -> (r:
    String)
    ensures
        r@ == text::without_end(base_url@, '/') + "/v1/klines?instrument_id="@
            + market_instrument_id@ + "&start_ms="@ + text::integer(start_ms as int) + "&end_ms="@
            + text::integer(end_ms as int) + "&interval_secs=60"@,
{
    let mut url: String = text::trim_end_of(base_url, '/');
    url.append("/v1/klines?instrument_id=");
    url.append(market_instrument_id);
    url.append("&start_ms=");
    text::push_integer(&mut url, start_ms);
    url.append("&end_ms=");
    text::push_integer(&mut url, end_ms);
    url.append("&interval_secs=60");
    url
}

/// The closed bars of a response, in the order of their start.
pub open spec fn closed_bars(klines: Seq<CtpdKline>) -> Result<Seq<HistoryBar>, Seq<char>>
    decreases klines.len(),
{
    if klines.len() == 0 {
        Ok(Seq::empty())
    } else {
        match closed_bars(klines.drop_last()) {
            Err(error) => Err(error),
            Ok(bars) => if !klines.last().closed {
                Ok(bars)
            } else {
                match bar_of(klines.last()) {
                    Err(error) => Err(error),
                    Ok(bar) => Ok(bars.push(bar)),
                }
            },
        }
    }
}

impl Ranked for CtpdKline {
    open spec fn ranks_before(self, other: Self) -> bool {
        self.start_ms < other.start_ms
    }

    proof fn lemma_ranks_asymmetric(a: Self, b: Self) {
    }

    proof fn lemma_ranks_transitive(a: Self, b: Self, c: Self) {
    }

    fn is_before(&self, other: &Self) -> (r: bool) {
        self.start_ms < other.start_ms
    }
}

/// The bars that a response recovers for a market.
pub fn recovered_bars(market_instrument_id: &str, klines: Vec<CtpdKline>) -> (r: Result<
    Vec<RecoveredKline>,
    String,
>)
    ensures
        match closed_bars(arrange::arranged(klines@)) {
            Err(error) => r matches Err(message) && message@ == error,
            Ok(bars) => r matches Ok(recovered) && recovered@.len() == bars.len() && forall|i: int|
                0 <= i < bars.len() ==> (#[trigger] recovered@[i]).bar == bars[i]
                    && recovered@[i].market_instrument_id@ == market_instrument_id@,
        },
{
    let sorted: Vec<CtpdKline> = arrange::arrange(klines);
    let ghost all = sorted@;
    let ghost mut bars: Seq<HistoryBar> = Seq::empty();
    let mut recovered: Vec<RecoveredKline> = Vec::new();
    let mut i: usize = 0;
    assert(all.take(0) =~= Seq::<CtpdKline>::empty());
    while i < sorted.len()
        invariant
            i <= sorted@.len(),
            all == sorted@,
            all == arrange::arranged(klines@),
            closed_bars(all.take(i as int)) == Ok::<Seq<HistoryBar>, Seq<char>>(bars),
            recovered@.len() == bars.len(),
            forall|j: int|
                0 <= j < bars.len() ==> (#[trigger] recovered@[j]).bar == bars[j]
                    && recovered@[j].market_instrument_id@ == market_instrument_id@,
        decreases sorted@.len() - i,
    {
        proof {
            assert(all.take(i + 1).drop_last() =~= all.take(i as int));
        }
        let kline: CtpdKline = sorted[i];
        if kline.closed {
            match history_bar_from_kline(kline) {
                Err(message) => {
                    proof {
                        lemma_closed_bars(all, i + 1);
                    }
                    return Err(message);
                },
                Ok(bar) => {
                    recovered.push(
                        RecoveredKline {
                            market_instrument_id: market_instrument_id.to_owned(),
                            bar,
                        },
                    );
                    proof {
                        bars = bars.push(bar);
                    }
                },
            }
        }
        i = i + 1;
    }
    assert(all.take(all.len() as int) =~= all);
    Ok(recovered)
}

proof fn lemma_closed_bars(klines: Seq<CtpdKline>, count: int)
    requires
        0 <= count <= klines.len(),
        closed_bars(klines.take(count)) is Err,
    ensures
        closed_bars(klines) == closed_bars(klines.take(count)),
    decreases klines.len(),
{
    if count == klines.len() {
        assert(klines.take(count) =~= klines);
    } else {
        assert(klines.drop_last().take(count) =~= klines.take(count));
        lemma_closed_bars(klines.drop_last(), count);
    }
}

/// What to do next with recovered bars.
#[derive(Clone, Copy, Debug, PartialEq, Eq, Structural)]
pub enum RecoveryAction {
    /// Hand the bar at a place to its model, and say whether it was applied.
    Ingest(usize),
    /// All bars of a time were handed over and one was applied: let the models
    /// decide on them together.
    Flush,
    /// All is done; this many bars were applied.
    Finished(usize),
}

/// The replay of recovered bars, one time after the other.
#[derive(Debug)]
pub struct RecoveryRun {
    pub klines: Vec<RecoveredKline>,
    pub next: usize,
    pub batch_applied: bool,
    pub applied: usize,
}

impl RecoveryRun {
    /// Whether all bars of a time were handed over.
    pub open spec fn between_times(self) -> bool {
        self.next == 0 || self.next == self.klines@.len() || self.klines@[self.next
            - 1].bar.timestamp_ns != self.klines@[self.next as int].bar.timestamp_ns
    }

    pub open spec fn well_formed(self) -> bool {
        self.next <= self.klines@.len() && self.applied <= self.next && (self.batch_applied
            ==> self.next > 0)
    }

    pub open spec fn due(self) -> RecoveryAction {
        if self.between_times() && self.batch_applied {
            RecoveryAction::Flush
        } else if self.next < self.klines@.len() {
            RecoveryAction::Ingest(self.next)
        } else {
            RecoveryAction::Finished(self.applied)
        }
    }

    /// Bars in the order in which they are to be replayed.
    pub fn new(recovered: Vec<RecoveredKline>) -> (r: Self)
        ensures
            r.well_formed(),
            r.klines@ == arrange::arranged(recovered@),
            r.next == 0,
            !r.batch_applied,
            r.applied == 0,
    {
        let mut klines: Vec<RecoveredKline> = recovered;
        sort_recovered_klines(&mut klines);
        RecoveryRun { klines, next: 0, batch_applied: false, applied: 0 }
    }

    pub fn action(&self) -> (r: RecoveryAction)
        requires
            self.well_formed(),
        ensures
            r == self.due(),
    {
        let between: bool = self.next == 0 || self.next == self.klines.len() || self.klines[self.next
            - 1].bar.timestamp_ns != self.klines[self.next].bar.timestamp_ns;
        if between && self.batch_applied {
            RecoveryAction::Flush
        } else if self.next < self.klines.len() {
            RecoveryAction::Ingest(self.next)
        } else {
            RecoveryAction::Finished(self.applied)
        }
    }

    /// The bar was handed over.
    pub fn ingested(&mut self, applied: bool)
        requires
            old(self).well_formed(),
            old(self).due() is Ingest,
        ensures
            final(self).well_formed(),
            final(self).klines == old(self).klines,
            final(self).next == old(self).next + 1,
            final(self).applied == old(self).applied + if applied {
                1int
            } else {
                0
            },
            final(self).batch_applied == (old(self).batch_applied || applied),
    {
        assert(self.next < self.klines.len());
        self.next = self.next + 1;
        if applied {
            self.applied = self.applied + 1;
            self.batch_applied = true;
        }
    }

    /// The models have decided.
    pub fn flushed(&mut self)
        requires
            old(self).well_formed(),
            old(self).due() is Flush,
        ensures
            final(self).well_formed(),
            final(self).klines == old(self).klines,
            final(self).next == old(self).next,
            final(self).applied == old(self).applied,
            !final(self).batch_applied,
    {
        self.batch_applied = false;
    }
}

/// What a decoder holds between two chunks of bytes.
#[verifier::ext_equal]
pub struct Stream {
    /// The bytes of a line that has not ended.
    pub buffer: Seq<u8>,
    pub event: Option<Seq<char>>,
    pub data: Seq<Seq<char>>,
}

/// Where the first line ends, from a place on.
pub open spec fn line_end(bytes: Seq<u8>, from: int) -> Option<int>
    decreases bytes.len() - from,
{
    if from < 0 || from >= bytes.len() {
        None
    } else if bytes[from] == 10 {
        Some(from)
    } else {
        line_end(bytes, from + 1)
    }
}

/// A line without the carriage return that may end it.
pub open spec fn without_return(line: Seq<u8>) -> Seq<u8> {
    if line.len() > 0 && line.last() == 13 {
        line.drop_last()
    } else {
        line
    }
}

/// Lines joined by line feeds.
pub open spec fn joined(lines: Seq<Seq<char>>) -> Seq<char>
    decreases lines.len(),
{
    if lines.len() == 0 {
        Seq::empty()
    } else if lines.len() == 1 {
        lines[0]
    } else {
        joined(lines.drop_last()) + "\n"@ + lines.last()
    }
}

/// One line: fields are collected, and an empty line ends the event. Only the
/// data of a tick is handed on.
pub open spec fn with_line(
    event: Option<Seq<char>>,
    data: Seq<Seq<char>>,
    line: Seq<char>,
) -> (Option<Seq<char>>, Seq<Seq<char>>, Option<Seq<char>>) {
    if line.len() == 0 {
        (
            None,
            Seq::empty(),
            if event == Some("tick"@) && data.len() > 0 {
                Some(joined(data))
            } else {
                None
            },
        )
    } else if "event:"@.is_prefix_of(line) {
        (Some(text::trimmed_start(line.skip(6))), data, None)
    } else if "data:"@.is_prefix_of(line) {
        (event, data.push(text::trimmed_start(line.skip(5))), None)
    } else {
        (event, data, None)
    }
}

/// All lines that have ended; nothing where one is not UTF-8.
pub open spec fn drained(stream: Stream) -> (Stream, Option<Seq<Seq<char>>>)
    decreases stream.buffer.len(),
{
    match line_end(stream.buffer, 0) {
        None => (stream, Some(Seq::empty())),
        Some(end) => {
            let line = without_return(stream.buffer.take(end));
            let rest = stream.buffer.skip(end + 1);
            if !(0 <= end < stream.buffer.len()) {
                (stream, None)
            } else if !valid_utf8(line) {
                (Stream { buffer: rest, ..stream }, None)
            } else {
                let (event, data, found) = with_line(
                    stream.event,
                    stream.data,
                    decode_utf8(line),
                );
                let (after, later) = drained(Stream { buffer: rest, event, data });
                (
                    after,
                    match later {
                        None => None,
                        Some(ticks) => match found {
                            Some(tick) => Some(seq![tick] + ticks),
                            None => Some(ticks),
                        },
                    },
                )
            }
        },
    }
}

/// `String::from_utf8`: the text of bytes that are valid UTF-8.
#[verifier::external_body]
fn utf8_text(bytes: Vec<u8>) -> (r: Option<String>)
    ensures
        r is Some == valid_utf8(bytes@),
        r matches Some(found) ==> found@ == decode_utf8(bytes@),
{
    String::from_utf8(bytes).ok()
}

/// A decoder after a chunk of bytes, and the data of the ticks that it
/// completes; nothing where a line is not UTF-8.
pub open spec fn pushed(stream: Stream, bytes: Seq<u8>) -> (Stream, Option<Seq<Seq<char>>>) {
    drained(Stream { buffer: stream.buffer + bytes, ..stream })
}

/// Decodes the event stream of the feed, chunk by chunk.
#[derive(Debug)]
pub struct SseDecoder {
    buffer: Vec<u8>,
    event: Option<String>,
    data: Vec<String>,
}

impl Default for SseDecoder {
    fn default() -> (r: Self)
        ensures
            r.stream() == (Stream { buffer: Seq::empty(), event: None, data: Seq::empty() }),
    {
        let r = SseDecoder { buffer: Vec::new(), event: None, data: Vec::new() };
        assert(r.stream() =~= Stream {
            buffer: Seq::empty(),
            event: None,
            data: Seq::empty(),
        });
        r
    }
}

/// Texts as characters.
pub open spec fn contents(texts: Seq<String>) -> Seq<Seq<char>> {
    texts.map_values(|value: String| value@)
}

impl SseDecoder {
    pub closed spec fn stream(self) -> Stream {
        Stream {
            buffer: self.buffer@,
            event: match self.event {
                Some(event) => Some(event@),
                None => None,
            },
            data: contents(self.data@),
        }
    }

    /// Takes bytes in and gives the data of the ticks that they complete.
    pub fn push(&mut self, bytes: &[u8]) -> (r: Result<Vec<String>, String>)
        ensures
            ({
                let (stream, ticks) = pushed(old(self).stream(), bytes@);
                &&& final(self).stream() == stream
                &&& match ticks {
                    Some(ticks) => r matches Ok(found) && contents(found@) == ticks,
                    None => r matches Err(message) && message@ == "CTPD SSE is not UTF-8"@,
                }
            }),
    {
        let mut i: usize = 0;
        let ghost before = self.buffer@;
        while i < bytes.len()
            invariant
                i <= bytes@.len(),
                self.buffer@ == before + bytes@.take(i as int),
                self.event == old(self).event,
                self.data == old(self).data,
            decreases bytes@.len() - i,
        {
            self.buffer.push(bytes[i]);
            assert(self.buffer@ =~= before + bytes@.take(i + 1));
            i = i + 1;
        }
        assert(bytes@.take(bytes@.len() as int) =~= bytes@);
        let mut ticks: Vec<String> = Vec::new();
        let ghost start = self.stream();
        assert(contents(ticks@) =~= Seq::<Seq<char>>::empty());
        loop
            invariant
                start == (Stream {
                    buffer: old(self).stream().buffer + bytes@,
                    ..old(self).stream()
                }),
                drained(start) == (
                    drained(self.stream()).0,
                    match drained(self.stream()).1 {
                        Some(later) => Some(contents(ticks@) + later),
                        None => None,
                    },
                ),
            decreases self.buffer@.len(),
        {
            let ghost here = self.stream();
            let end: usize = match self.next_line_end() {
                Some(end) => end,
                None => {
                    assert(contents(ticks@) + Seq::<Seq<char>>::empty() =~= contents(ticks@));
                    return Ok(ticks);
                },
            };
            let line: Vec<u8> = self.take_line(end);
            let line: String = match utf8_text(line) {
                Some(line) => line,
                None => {
                    return Err("CTPD SSE is not UTF-8".to_owned());
                },
            };
            let found: Option<String> = self.take_field(line.as_str());
            if let Some(tick) = found {
                let ghost earlier = ticks@;
                ticks.push(tick);
                proof {
                    assert(contents(ticks@) =~= contents(earlier).push(tick@));
                    if let Some(later) = drained(self.stream()).1 {
                        assert(contents(earlier) + (seq![tick@] + later) =~= contents(ticks@)
                            + later);
                    }
                }
            }
        }
    }

    fn next_line_end(&self) -> (r: Option<usize>)
        ensures
            match r {
                Some(end) => end < self.stream().buffer.len() && line_end(self.stream().buffer, 0)
                    == Some(end as int),
                None => line_end(self.stream().buffer, 0) is None,
            },
    {
        let mut i: usize = 0;
        while i < self.buffer.len()
            invariant
                i <= self.buffer@.len(),
                line_end(self.buffer@, 0) == line_end(self.buffer@, i as int),
            decreases self.buffer@.len() - i,
        {
            if self.buffer[i] == 10 {
                return Some(i);
            }
            i = i + 1;
        }
        None
    }

    /// Takes the first line out of the buffer.
    fn take_line(&mut self, end: usize) -> (r: Vec<u8>)
        requires
            end < old(self).stream().buffer.len(),
        ensures
            r@ == without_return(old(self).stream().buffer.take(end as int)),
            final(self).stream() == (Stream {
                buffer: old(self).stream().buffer.skip(end + 1),
                ..old(self).stream()
            }),
    {
        let ghost all = self.buffer@;
        assert(end < self.buffer.len());
        let mut line: Vec<u8> = self.buffer.split_off(end + 1);
        std::mem::swap(&mut line, &mut self.buffer);
        assert(self.buffer@ =~= all.skip(end + 1));
        let _feed: Option<u8> = line.pop();
        assert(line@ =~= all.take(end as int));
        if line.len() > 0 && line[line.len() - 1] == 13 {
            let _return: Option<u8> = line.pop();
            assert(line@ =~= all.take(end as int).drop_last());
        }
        line
    }

    /// Takes a line in.
    fn take_field(&mut self, line: &str) -> (r: Option<String>)
        ensures
            ({
                let (event, data, found) = with_line(
                    old(self).stream().event,
                    old(self).stream().data,
                    line@,
                );
                &&& final(self).stream() == (Stream {
                    buffer: old(self).stream().buffer,
                    event,
                    data,
                })
                &&& match found {
                    Some(tick) => r matches Some(given) && given@ == tick,
                    None => r is None,
                }
            }),
    {
        proof {
            reveal_strlit("event:");
            reveal_strlit("data:");
        }
        if line.is_empty() {
            let is_tick: bool = match &self.event {
                Some(event) => text::same(event.as_str(), "tick"),
                None => false,
            };
            let found: Option<String> = if is_tick && self.data.len() > 0 {
                Some(join_lines(&self.data))
            } else {
                None
            };
            self.event = None;
            self.data = Vec::new();
            assert(contents(self.data@) =~= Seq::<Seq<char>>::empty());
            return found;
        }
        match text::strip_prefix(line, "event:") {
            Some(value) => {
                self.event = Some(text::trim_start(value.as_str()));
                return None;
            },
            None => {},
        }
        match text::strip_prefix(line, "data:") {
            Some(value) => {
                let ghost before = self.data@;
                self.data.push(text::trim_start(value.as_str()));
                assert(contents(self.data@) =~= contents(before).push(
                    text::trimmed_start(line@.skip(5)),
                ));
            },
            None => {},
        }
        None
    }
}

/// Lines joined by line feeds.
pub fn join_lines(lines: &Vec<String>) -> (r: String)
    ensures
        r@ == joined(contents(lines@)),
{
    let ghost all = contents(lines@);
    let mut out: String = String::new();
    let mut i: usize = 0;
    assert(all.take(0) =~= Seq::<Seq<char>>::empty());
    assert(out@ =~= joined(all.take(0)));
    while i < lines.len()
        invariant
            i <= lines@.len(),
            all == contents(lines@),
            out@ == joined(all.take(i as int)),
        decreases lines@.len() - i,
    {
        proof {
            assert(all.take(i + 1).drop_last() =~= all.take(i as int));
            assert(all.take(i + 1).last() == lines@[i as int]@);
        }
        if i > 0 {
            out.append("\n");
        }
        out.append(lines[i].as_str());
        assert(out@ =~= joined(all.take(i + 1)));
        i = i + 1;
    }
    assert(all.take(all.len() as int) =~= all);
    out
}

proof fn lemma_line_end_bounds(bytes: Seq<u8>, from: int)
    requires
        0 <= from,
    ensures
        line_end(bytes, from) matches Some(end) ==> from <= end < bytes.len(),
    decreases bytes.len() - from,
{
    if from < bytes.len() && bytes[from] != 10 {
        lemma_line_end_bounds(bytes, from + 1);
    }
}

proof fn lemma_line_end_extends(bytes: Seq<u8>, more: Seq<u8>, from: int)
    requires
        0 <= from,
        line_end(bytes, from) is Some,
    ensures
        line_end(bytes + more, from) == line_end(bytes, from),
    decreases bytes.len() - from,
{
    if bytes[from] != 10 {
        lemma_line_end_extends(bytes, more, from + 1);
    }
}

/// How a stream is cut into chunks does not matter: bytes that come in two
/// chunks give the ticks that they give in one.
pub proof fn law_chunks_do_not_matter(stream: Stream, more: Seq<u8>)
    ensures
        ({
            let (middle, first) = drained(stream);
            let (last, second) = drained(Stream { buffer: middle.buffer + more, ..middle });
            let whole = drained(Stream { buffer: stream.buffer + more, ..stream });
            first matches Some(earlier) ==> whole == (
                last,
                match second {
                    Some(later) => Some(earlier + later),
                    None => None,
                },
            )
        }),
    decreases stream.buffer.len(),
{
    let bytes = stream.buffer;
    let (middle, first) = drained(stream);
    let second = drained(Stream { buffer: middle.buffer + more, ..middle }).1;
    match line_end(bytes, 0) {
        None => {
            if let Some(later) = second {
                assert(Seq::<Seq<char>>::empty() + later =~= later);
            }
        },
        Some(end) => {
            lemma_line_end_bounds(bytes, 0);
            lemma_line_end_extends(bytes, more, 0);
            let all = bytes + more;
            assert(all.take(end) =~= bytes.take(end));
            let rest = bytes.skip(end + 1);
            assert(all.skip(end + 1) =~= rest + more);
            let line = without_return(bytes.take(end));
            if valid_utf8(line) {
                let (event, data, found) = with_line(
                    stream.event,
                    stream.data,
                    decode_utf8(line),
                );
                let next = Stream { buffer: rest, event, data };
                law_chunks_do_not_matter(next, more);
                if let Some(earlier) = drained(next).1 {
                    if let Some(later) = second {
                        if let Some(tick) = found {
                            assert(seq![tick] + (earlier + later) =~= (seq![tick] + earlier)
                                + later);
                        }
                    }
                }
            }
        },
    }
}

/// What a connection to the feed brings next.
#[derive(Debug)]
pub enum FeedEvent {
    Bytes(Vec<u8>),
    /// Nothing came for too long.
    Silence,
    Ended,
    Failed(String),
}

/// Takes in what a connection brings: the data of ticks, or why the connection
/// is given up.
pub fn received(decoder: &mut SseDecoder, event: FeedEvent, stale_after_ms: u64) -> (r: Result<
    Vec<String>,
    String,
>)
    ensures
        match event {
            FeedEvent::Bytes(bytes) => {
                let (stream, ticks) = pushed(old(decoder).stream(), bytes@);
                &&& final(decoder).stream() == stream
                &&& match ticks {
                    Some(ticks) => r matches Ok(found) && contents(found@) == ticks,
                    None => r matches Err(message) && message@ == "CTPD SSE is not UTF-8"@,
                }
            },
            FeedEvent::Silence => {
                &&& *final(decoder) == *old(decoder)
                &&& r matches Err(message) && message@ == "no CTPD tick for "@ + text::numeral(
                    stale_after_ms as nat,
                ) + " ms"@
            },
            FeedEvent::Ended => {
                &&& *final(decoder) == *old(decoder)
                &&& r matches Err(message) && message@ == "CTPD SSE stream ended"@
            },
            FeedEvent::Failed(error) => {
                &&& *final(decoder) == *old(decoder)
                &&& r matches Err(message) && message@ == "CTPD SSE read failed: "@ + error@
            },
        },
{
    match event {
        FeedEvent::Bytes(bytes) => decoder.push(bytes.as_slice()),
        FeedEvent::Silence => {
            let mut message: String = "no CTPD tick for ".to_owned();
            text::push_numeral(&mut message, stale_after_ms as u128);
            message.append(" ms");
            Err(message)
        },
        FeedEvent::Ended => Err("CTPD SSE stream ended".to_owned()),
        FeedEvent::Failed(error) => {
            let mut message: String = "CTPD SSE read failed: ".to_owned();
            message.append(error.as_str());
            Err(message)
        },
    }
}

/// What to do when a connection to the feed is over.
#[derive(Clone, Copy, Debug, PartialEq, Eq, Structural)]
pub struct Reconnection {
    pub report: bool,
    /// Whether all targets are withdrawn.
    pub clear: bool,
    /// Whether closed bars are recovered before the next connection.
    pub recover: bool,
}

/// What to do when a connection is over at a time.
pub open spec fn reconnection(failed: bool, now: i64) -> Reconnection {
    Reconnection {
        report: failed && !market_time::midday(now),
        clear: !market_time::midday(now),
        recover: true,
    }
}

/// A lost feed is reported and withdraws every target, except in the midday
/// break, in which no ticks are expected; either way the next connection
/// recovers first. `now` counts seconds since 1970-01-01 UTC.
pub fn after_connection(failed: bool, now: i64) -> (r: Reconnection)
    requires
        market_time::supported(now as int),
    ensures
        r == reconnection(failed, now),
{
    let expected: bool = market_time::is_cffex_lunch_break(now);
    Reconnection { report: failed && !expected, clear: !expected, recover: true }
}

} // verus!
