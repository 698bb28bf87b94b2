//! What is made of the feed: its bars, its hours, its lines.

use crate::arrange;
use crate::arrange::Ranked;
use crate::fixed_capital::{HistoryBar, InstrumentHistory};
use crate::live::command;
use crate::live::command::Sample;
use crate::live::ctpd;
use crate::live::ctpd::{CtpdKline, RecoveredKline};
use crate::live::market_time;
use crate::live::market_time::WallClock;
use crate::live::seed;
use crate::live::seed::MergedBar;
use crate::rounding;
use crate::rounding::one;
use crate::text;
use vstd::prelude::*;

verus! {

/// Whether the numbers of a bar of the feed can stand together: prices are positive
/// and lie between its low and its high, and nothing that is counted is negative.
pub open spec fn is_sensible(kline: CtpdKline) -> bool {
    &&& kline.open.finite() && kline.high.finite() && kline.low.finite() && kline.close.finite()
    &&& kline.money.finite() && kline.open_interest.finite()
    &&& 0 < kline.low.value()
    &&& kline.low.value() <= kline.open.value() <= kline.high.value()
    &&& kline.low.value() <= kline.close.value() <= kline.high.value()
    &&& kline.volume >= 0 && kline.money.value() >= 0 && kline.open_interest.value() >= 0
    &&& kline.start_ms >= 0
}

/// A bar of the feed is taken exactly where its numbers can stand together and its
/// end is a timestamp. It is labelled by its end, a minute after its start; all else
/// of it is kept.
pub proof fn law_bars_of_the_feed_are_kept(kline: CtpdKline)
    ensures
        ctpd::bar_of(kline) is Ok <==> is_sensible(kline) && (kline.start_ms + 60_000)
            * 1_000_000 <= i64::MAX,
        ctpd::bar_of(kline) matches Ok(bar) ==> {
            &&& bar.timestamp_ns == (kline.start_ms + 60_000) * 1_000_000
            &&& bar.open == kline.open
            &&& bar.high == kline.high
            &&& bar.low == kline.low
            &&& bar.close == kline.close
            &&& bar.money == kline.money
            &&& bar.open_interest == kline.open_interest
            &&& kline.volume <= 0x20_0000_0000_0000 ==> bar.volume.value() == kline.volume * one()
        },
{
    if 0 <= kline.volume <= 0x20_0000_0000_0000 {
        rounding::law_integers_are_exact(kline.volume as int);
    }
}

/// A response gives the bars that are closed, and those only, in order: one more that
/// is open adds nothing, one more that is closed adds its bar.
pub proof fn law_only_closed_bars_are_taken(klines: Seq<CtpdKline>, next: CtpdKline)
    requires
        ctpd::closed_bars(klines) is Ok,
    ensures
        ctpd::closed_bars(Seq::empty()) == Ok::<Seq<HistoryBar>, Seq<char>>(Seq::empty()),
        !next.closed ==> ctpd::closed_bars(klines.push(next)) == ctpd::closed_bars(klines),
        next.closed && is_sensible(next) && (next.start_ms + 60_000) * 1_000_000 <= i64::MAX ==> (
        ctpd::closed_bars(klines.push(next)) matches Ok(bars) && bars.len() == ctpd::closed_bars(
            klines,
        )->Ok_0.len() + 1 && bars.drop_last() == ctpd::closed_bars(klines)->Ok_0
            && bars.last().timestamp_ns == (next.start_ms + 60_000) * 1_000_000
            && bars.last().close == next.close && bars.last().open == next.open),
        next.closed && !is_sensible(next) ==> ctpd::closed_bars(klines.push(next)) is Err,
{
    assert(klines.push(next).drop_last() =~= klines);
    law_bars_of_the_feed_are_kept(next);
    if next.closed && is_sensible(next) {
        if let Ok(bars) = ctpd::closed_bars(klines.push(next)) {
            assert(bars.drop_last() =~= ctpd::closed_bars(klines)->Ok_0);
        }
    }
}

/// The bars of a response stand in the order of time, whatever order they came in.
pub proof fn law_responses_are_put_in_order(klines: Seq<CtpdKline>, i: int, j: int)
    requires
        ctpd::closed_bars(arrange::arranged(klines)) is Ok,
        0 <= i < j < ctpd::closed_bars(arrange::arranged(klines))->Ok_0.len(),
    ensures
        ctpd::closed_bars(arrange::arranged(klines))->Ok_0[i].timestamp_ns <= ctpd::closed_bars(
            arrange::arranged(klines),
        )->Ok_0[j].timestamp_ns,
{
    arrange::law_arranged(klines);
    lemma_in_order(arrange::arranged(klines), i, j);
}

/// Whether klines start one after the other.
spec fn in_time(klines: Seq<CtpdKline>) -> bool {
    forall|i: int, j: int|
        0 <= i < j < klines.len() ==> (#[trigger] klines[i]).start_ms <= (
        #[trigger] klines[j]).start_ms
}

proof fn lemma_in_order(klines: Seq<CtpdKline>, i: int, j: int)
    requires
        arrange::in_order(klines),
        ctpd::closed_bars(klines) is Ok,
        0 <= i < j < ctpd::closed_bars(klines)->Ok_0.len(),
    ensures
        ctpd::closed_bars(klines)->Ok_0[i].timestamp_ns <= ctpd::closed_bars(
            klines,
        )->Ok_0[j].timestamp_ns,
{
    assert(in_time(klines)) by {
        assert forall|a: int, b: int| 0 <= a < b < klines.len() implies (
        #[trigger] klines[a]).start_ms <= (#[trigger] klines[b]).start_ms by {
            assert(!klines[b].ranks_before(klines[a]));
        }
    }
    lemma_ends(klines, i);
    lemma_ends(klines, j);
    lemma_pairs(klines, i, j);
}

/// Each bar ends no later than the last kline.
proof fn lemma_ends(klines: Seq<CtpdKline>, i: int)
    requires
        in_time(klines),
        ctpd::closed_bars(klines) is Ok,
        0 <= i < ctpd::closed_bars(klines)->Ok_0.len(),
    ensures
        klines.len() > 0,
        ctpd::closed_bars(klines)->Ok_0[i].timestamp_ns <= (klines.last().start_ms + 60_000)
            * 1_000_000,
    decreases klines.len(),
{
    if klines.len() > 0 {
        let fewer = klines.drop_last();
        assert(in_time(fewer));
        law_bars_of_the_feed_are_kept(klines.last());
        if i < ctpd::closed_bars(fewer)->Ok_0.len() {
            lemma_ends(fewer, i);
            assert(klines[fewer.len() - 1].start_ms <= klines[klines.len() - 1].start_ms);
        }
    }
}

proof fn lemma_pairs(klines: Seq<CtpdKline>, i: int, j: int)
    requires
        in_time(klines),
        ctpd::closed_bars(klines) is Ok,
        0 <= i < j < ctpd::closed_bars(klines)->Ok_0.len(),
    ensures
        ctpd::closed_bars(klines)->Ok_0[i].timestamp_ns <= ctpd::closed_bars(
            klines,
        )->Ok_0[j].timestamp_ns,
    decreases klines.len(),
{
    if klines.len() > 0 {
        let fewer = klines.drop_last();
        assert(in_time(fewer));
        law_bars_of_the_feed_are_kept(klines.last());
        if j < ctpd::closed_bars(fewer)->Ok_0.len() {
            lemma_pairs(fewer, i, j);
        } else {
            lemma_ends(fewer, i);
            assert(klines[fewer.len() - 1].start_ms <= klines[klines.len() - 1].start_ms);
        }
    }
}

/// A request asks for a day at most.
pub proof fn law_requests_span_a_day_at_most(start_ms: i64, end_ms: i64, i: int)
    requires
        0 <= i < ctpd::windows(start_ms as int, end_ms as int).len(),
    ensures
        ({
            let w = ctpd::windows(start_ms as int, end_ms as int)[i];
            0 < w.1 - w.0 <= 24 * 60 * 60 * 1_000
        }),
{
    if start_ms < end_ms {
        ctpd::law_windows_tile_the_span(start_ms, end_ms);
    }
}

/// What is recovered begins with the millisecond of the last known bar and ends now; it is
/// refused where nothing is known or the clock lies before it.
pub proof fn law_recovery_begins_with_the_last_bar(last_bar_ns: u64, now_ms: i64)
    ensures
        ctpd::missed_span(None, now_ms) is Err,
        match ctpd::missed_span(Some(last_bar_ns), now_ms) {
            Ok(span) => {
                &&& span.0 * 1_000_000 <= last_bar_ns < (span.0 + 1) * 1_000_000
                &&& span.1 == now_ms
                &&& span.0 <= span.1
            },
            Err(_) => last_bar_ns > i64::MAX || (now_ms + 1) * 1_000_000 <= last_bar_ns,
        },
{
}

/// Merged bars go by time, and at one time by market.
pub proof fn law_merged_bars_go_by_time(
    order: Seq<MergedBar>,
    histories: Seq<InstrumentHistory>,
    i: int,
    j: int,
)
    requires
        seed::is_merged(order, histories),
        0 <= i < j < order.len(),
    ensures
        ({
            let a = histories[order[i].history as int];
            let b = histories[order[j].history as int];
            let s = a.bars@[order[i].bar as int].timestamp_ns;
            let t = b.bars@[order[j].bar as int].timestamp_ns;
            s < t || s == t && text::before(a.instrument@, b.instrument@)
        }),
{
}

/// Recovered bars go by time, and at one time by market.
pub proof fn law_recovered_bars_go_by_time(recovered: Seq<RecoveredKline>, i: int, j: int)
    requires
        0 <= i < j < recovered.len(),
    ensures
        arrange::arranged(recovered).len() == recovered.len(),
        ({
            let a = arrange::arranged(recovered)[i];
            let b = arrange::arranged(recovered)[j];
            a.bar.timestamp_ns < b.bar.timestamp_ns || a.bar.timestamp_ns == b.bar.timestamp_ns
                && !text::before(b.market_instrument_id@, a.market_instrument_id@)
        }),
{
    arrange::law_arranged(recovered);
    assert(!arrange::arranged(recovered)[j].ranks_before(arrange::arranged(recovered)[i]));
}

/// The wall clock of Shanghai runs eight hours ahead of UTC, the year round.
pub proof fn law_shanghai_is_eight_hours_ahead(timestamp_ns: u64, clock: WallClock)
    ensures
        market_time::shanghai_reading(timestamp_ns).seconds == timestamp_ns / 1_000_000_000 + 8 * 60
            * 60,
        market_time::shanghai_reading(timestamp_ns).nanoseconds == timestamp_ns % 1_000_000_000,
        market_time::shanghai_instant(clock) == (clock.seconds - 8 * 60 * 60) * 1_000_000_000
            + clock.nanoseconds,
{
}

/// The feed counts milliseconds, and a timestamp nanoseconds.
pub proof fn law_the_feed_counts_milliseconds(timestamp_ms: i64)
    ensures
        match market_time::feed_nanoseconds(timestamp_ms) {
            Ok(timestamp_ns) => timestamp_ns == timestamp_ms * 1_000_000,
            Err(_) => timestamp_ms < 0 || timestamp_ms * 1_000_000 > i64::MAX,
        },
{
}

/// The exchange is silent from half past eleven until one on the clock of Shanghai,
/// and at no other time.
pub proof fn law_the_break_is_at_midday(seconds: i64)
    requires
        market_time::supported(seconds as int),
    ensures
        market_time::midday(seconds) <==> 11 * 3_600 + 30 * 60 <= (seconds + 8 * 3_600) % 86_400
            < 13 * 3_600,
{
    let s = (seconds + 28_800) % 86_400;
    assert(690 <= s / 60 < 780 <==> 41_400 <= s < 46_800);
}

/// A feed that is lost outside the break withdraws every target, and is reported where it
/// has failed; in the break neither is done. What was missed is always recovered.
pub proof fn law_lost_feeds_withdraw_targets(failed: bool, now: i64)
    requires
        market_time::supported(now as int),
    ensures
        ({
            let silent = 11 * 3_600 + 30 * 60 <= (now + 8 * 3_600) % 86_400 < 13 * 3_600;
            let next = ctpd::reconnection(failed, now);
            &&& next.recover
            &&& next.clear <==> !silent
            &&& next.report <==> failed && !silent
        }),
{
    law_the_break_is_at_midday(now);
}

/// A recovered bar becomes one of a seed on the clock of Shanghai: eight hours on, with
/// its prices and its open interest.
pub proof fn law_seeds_stand_on_the_clock_of_shanghai(bar: HistoryBar)
    requires
        bar.timestamp_ns <= i64::MAX,
    ensures
        seed::on_wall_clock(bar).timestamp_ns == bar.timestamp_ns + 8 * 3_600 * 1_000_000_000,
        seed::on_wall_clock(bar).open == bar.open,
        seed::on_wall_clock(bar).close == bar.close,
        seed::on_wall_clock(bar).open_interest == bar.open_interest,
{
}

/// An empty line ends an event. The data of a tick is handed on, its lines joined; that
/// of any other event is not, and nothing is where there is no data. Either way what
/// was collected is gone.
pub proof fn law_empty_lines_end_events(event: Option<Seq<char>>, data: Seq<Seq<char>>)
    ensures
        ({
            let (next, collected, found) = ctpd::with_line(event, data, Seq::empty());
            &&& next is None
            &&& collected.len() == 0
            &&& found is Some <==> event == Some("tick"@) && data.len() > 0
            &&& found is Some && data.len() == 1 ==> found == Some(data[0])
        }),
{
}

/// A line of an event names it or adds to its data, without the space behind the
/// colon; other lines say nothing. No line but an empty one hands anything on.
pub proof fn law_lines_collect_fields(
    event: Option<Seq<char>>,
    data: Seq<Seq<char>>,
    value: Seq<char>,
)
    requires
        value.len() > 0 ==> !text::whitespace(value[0]),
    ensures
        ctpd::with_line(event, data, "event: "@ + value) == (
            Some(value),
            data,
            None::<Seq<char>>,
        ),
        ctpd::with_line(event, data, "event:"@ + value) == (Some(value), data, None::<Seq<char>>),
        ctpd::with_line(event, data, "data: "@ + value) == (
            event,
            data.push(value),
            None::<Seq<char>>,
        ),
        ctpd::with_line(event, data, "data:"@ + value) == (
            event,
            data.push(value),
            None::<Seq<char>>,
        ),
        ctpd::with_line(event, data, ":"@ + value) == (event, data, None::<Seq<char>>),
{
    reveal_strlit("event: ");
    reveal_strlit("event:");
    reveal_strlit("data: ");
    reveal_strlit("data:");
    reveal_strlit(":");
    let a = "event: "@ + value;
    let b = "event:"@ + value;
    let c = "data: "@ + value;
    let d = "data:"@ + value;
    assert("event:"@.is_prefix_of(a)) by {
        assert(a.subrange(0, 6) =~= "event:"@);
    }
    assert("event:"@.is_prefix_of(b)) by {
        assert(b.subrange(0, 6) =~= "event:"@);
    }
    assert("data:"@.is_prefix_of(c)) by {
        assert(c.subrange(0, 5) =~= "data:"@);
    }
    assert("data:"@.is_prefix_of(d)) by {
        assert(d.subrange(0, 5) =~= "data:"@);
    }
    assert(!"event:"@.is_prefix_of(c)) by {
        assert(c[0] == 'd' && "event:"@[0] == 'e');
    }
    assert(!"event:"@.is_prefix_of(d)) by {
        assert(d[0] == 'd' && "event:"@[0] == 'e');
    }
    let e = ":"@ + value;
    assert(!"event:"@.is_prefix_of(e)) by {
        assert(e[0] == ':' && "event:"@[0] == 'e');
    }
    assert(!"data:"@.is_prefix_of(e)) by {
        assert(e[0] == ':' && "data:"@[0] == 'd');
    }
    let spaced = seq![' '] + value;
    assert(a.skip(6) =~= spaced);
    assert(c.skip(5) =~= spaced);
    assert(b.skip(6) =~= value);
    assert(d.skip(5) =~= value);
    assert(spaced.drop_first() =~= value);
    assert(text::trimmed_start(spaced) == text::trimmed_start(spaced.drop_first()));
    assert(text::trimmed_start(value) == value);
}

/// Lines are joined by line feeds, in order.
pub proof fn law_lines_are_joined_by_feeds(lines: Seq<Seq<char>>, next: Seq<char>)
    ensures
        ctpd::joined(Seq::empty()) == Seq::<char>::empty(),
        ctpd::joined(seq![next]) == next,
        lines.len() > 0 ==> ctpd::joined(lines.push(next)) == ctpd::joined(lines) + seq!['\n']
            + next,
{
    reveal_strlit("\n");
    assert("\n"@ =~= seq!['\n']);
    assert(lines.push(next).drop_last() =~= lines);
}

/// The first line ends with the first line feed.
pub proof fn law_lines_end_with_feeds(bytes: Seq<u8>, from: int)
    requires
        0 <= from <= bytes.len(),
    ensures
        match ctpd::line_end(bytes, from) {
            Some(end) => {
                &&& from <= end < bytes.len()
                &&& bytes[end] == 10
                &&& forall|i: int| from <= i < end ==> #[trigger] bytes[i] != 10
            },
            None => forall|i: int| from <= i < bytes.len() ==> #[trigger] bytes[i] != 10,
        },
    decreases bytes.len() - from,
{
    if from < bytes.len() && bytes[from] != 10 {
        law_lines_end_with_feeds(bytes, from + 1);
    }
}

/// The latencies of a benchmark are among its samples and in order, and none lies above
/// the greatest. As many samples as they say are no greater: half of them, all but the
/// slowest hundredth, and all.
pub proof fn law_latencies_rank_the_samples(samples: Seq<Sample>, i: int)
    requires
        0 <= i < samples.len(),
    ensures
        ({
            let l = command::latencies(samples);
            let n = samples.len() as int;
            &&& l.p50_ns <= l.p99_ns <= l.max_ns
            &&& samples[i].nanoseconds <= l.max_ns
            &&& samples.contains(Sample { nanoseconds: l.p50_ns })
            &&& samples.contains(Sample { nanoseconds: l.p99_ns })
            &&& samples.contains(Sample { nanoseconds: l.max_ns })
            &&& ranked(samples, l.p50_ns, n / 2)
            &&& ranked(samples, l.p99_ns, n * 99 / 100)
        }),
{
    broadcast use vstd::seq_lib::group_to_multiset_ensures;

    let sorted = arrange::arranged(samples);
    let n = samples.len() as int;
    arrange::law_arranged(samples);
    arrange::lemma_arranged_contains(samples, n / 2);
    arrange::lemma_arranged_contains(samples, n * 99 / 100);
    arrange::lemma_arranged_contains(samples, n - 1);
    assert(samples.to_multiset().contains(samples[i]));
    assert(sorted.contains(samples[i]));
    let k = choose|k: int| 0 <= k < sorted.len() && sorted[k] == samples[i];
    if k < n - 1 {
        assert(!sorted[n - 1].ranks_before(sorted[k]));
    }
    if n / 2 < n * 99 / 100 {
        assert(!sorted[n * 99 / 100].ranks_before(sorted[n / 2]));
    }
    if n * 99 / 100 < n - 1 {
        assert(!sorted[n - 1].ranks_before(sorted[n * 99 / 100]));
    }
    assert(samples[n - 1] == samples.last());
}

/// Whether a latency has a rank: put in order, the samples before it are no greater, and
/// those behind it are no less.
pub open spec fn ranked(samples: Seq<Sample>, nanoseconds: u64, rank: int) -> bool {
    exists|sorted: Seq<Sample>| #[trigger]
        sorted.to_multiset() == samples.to_multiset() && 0 <= rank < sorted.len()
            && sorted[rank].nanoseconds == nanoseconds && (forall|i: int|
            0 <= i < rank ==> (#[trigger] sorted[i]).nanoseconds <= nanoseconds) && (forall|i: int|
            rank < i < sorted.len() ==> (#[trigger] sorted[i]).nanoseconds >= nanoseconds)
}

} // verus!
