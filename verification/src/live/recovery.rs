//! Recovery after a lost feed: either every reading was good and every leg is
//! recovered from it, or nothing is applied.

use crate::arrange;
use crate::data::HistoryBar;
use crate::live::ctpd;
use crate::live::ctpd::{CtpdKline, RecoveredKline, RecoveryAction, RecoveryRun};
use crate::live::model;
use crate::live::model::Leg;
use crate::live::publication::Publication;
use crate::live::seed;
use crate::ordered;
use crate::ordered::{TextMap, TextSet};
use crate::text;
use vstd::prelude::*;

verus! {

/// What was read of a market.
pub type Reading = (String, Result<Vec<CtpdKline>, String>);

/// The closed bars of readings, one after the other, or why one of them cannot
/// be used: the first that failed, or holds a bar that makes no sense.
pub open spec fn read_bars(read: Seq<Reading>) -> Result<
    Seq<(Seq<char>, crate::fixed_capital::HistoryBar)>,
    Seq<char>,
>
    decreases read.len(),
{
    if read.len() == 0 {
        Ok(Seq::empty())
    } else {
        match read_bars(read.drop_last()) {
            Err(error) => Err(error),
            Ok(found) => match read.last().1 {
                Err(error) => Err(error@),
                Ok(klines) => match ctpd::closed_bars(arrange::arranged(klines@)) {
                    Err(error) => Err(error),
                    Ok(bars) => Ok(found + tagged(read.last().0@, bars)),
                },
            },
        }
    }
}

/// Bars with their market.
pub open spec fn tagged(
    market: Seq<char>,
    bars: Seq<crate::fixed_capital::HistoryBar>,
) -> Seq<(Seq<char>, crate::fixed_capital::HistoryBar)> {
    bars.map_values(|bar: crate::fixed_capital::HistoryBar| (market, bar))
}

/// Recovered bars, with their markets as characters.
pub open spec fn entries(klines: Seq<RecoveredKline>) -> Seq<
    (Seq<char>, crate::fixed_capital::HistoryBar),
> {
    klines.map_values(|kline: RecoveredKline| (kline.market_instrument_id@, kline.bar))
}

/// The histories by market.
pub open spec fn chart(histories: TextMap<Vec<HistoryBar>>) -> Map<Seq<char>, Seq<HistoryBar>> {
    Map::new(|market: Seq<char>| histories.has(market), |market: Seq<char>| histories.at(market)@)
}

/// Whether a recovered bar is new to a history.
pub open spec fn is_new(history: Seq<HistoryBar>, kline: RecoveredKline) -> bool {
    history.len() == 0 || history.last().timestamp_ns < seed::on_wall_clock(
        kline.bar,
    ).timestamp_ns
}

/// Histories after recovered bars, one after the other, and how many of those
/// were new.
pub open spec fn absorbed(
    histories: Map<Seq<char>, Seq<HistoryBar>>,
    klines: Seq<RecoveredKline>,
) -> (Map<Seq<char>, Seq<HistoryBar>>, int)
    decreases klines.len(),
{
    if klines.len() == 0 {
        (histories, 0)
    } else {
        let (before, count) = absorbed(histories, klines.drop_last());
        let kline = klines.last();
        let market = kline.market_instrument_id@;
        if is_new(before[market], kline) {
            (before.insert(market, before[market].push(seed::on_wall_clock(kline.bar))), count + 1)
        } else {
            (before, count)
        }
    }
}

/// Why nothing is applied: a reading cannot be used, or a market has no history.
pub open spec fn refusal(
    publication: Publication,
    histories: Map<Seq<char>, Seq<HistoryBar>>,
    read: Seq<Reading>,
) -> Option<Seq<char>> {
    match read_bars(read) {
        Err(error) => Some(error),
        Ok(found) => if exists|i: int|
            0 <= i < found.len() && !histories.contains_key((#[trigger] found[i]).0) {
            Some("cannot recover CTPD Klines before Parquet history is seeded"@)
        } else if exists|id: Seq<char>| #[trigger]
            publication.portfolio().models.has(id) && !histories.contains_key(id) {
            Some("cannot recover CTPD Klines before Parquet history is seeded"@)
        } else {
            None
        },
    }
}

/// Whether a leg is recovered again: it was not since the feed was lost, or its
/// history has advanced.
pub open spec fn is_due(
    publication: Publication,
    before: Map<Seq<char>, Seq<HistoryBar>>,
    after: Map<Seq<char>, Seq<HistoryBar>>,
    id: Seq<char>,
) -> bool {
    !publication.has_recovered(id) || after[id] != before[id]
}

/// Whether a leg is what recovery makes of it: its history replayed and no
/// target shown, or what it was.
pub open spec fn is_recovered(
    before: Publication,
    after: Publication,
    id: Seq<char>,
    history: Seq<HistoryBar>,
    due: bool,
) -> bool {
    let was = before.portfolio().models.at(id);
    let is = after.portfolio().models.at(id);
    if due {
        &&& is.setup() == was.setup()
        &&& is.leg() == Leg::seeded(was.setup(), history).0
        &&& Leg::seeded(was.setup(), history).1 is Ok
        &&& !after.portfolio().targets.has(id)
    } else {
        &&& is == was
        &&& model::alike(after.portfolio().targets, before.portfolio().targets, id)
    }
}

/// Whether an outcome is that of a recovery whose bars were applied.
pub open spec fn is_applied(
    r: Result<usize, String>,
    before: Publication,
    after: Publication,
    old_histories: Map<Seq<char>, Seq<HistoryBar>>,
    histories: Map<Seq<char>, Seq<HistoryBar>>,
    count: int,
) -> bool {
    &&& forall|id: Seq<char>| #[trigger]
        after.portfolio().models.has(id) == before.portfolio().models.has(id)
    &&& match r {
        Ok(applied) => {
            &&& applied == count
            &&& after.synchronized()
            &&& forall|id: Seq<char>| #[trigger]
                before.portfolio().models.has(id) ==> is_recovered(
                    before,
                    after,
                    id,
                    histories[id],
                    is_due(before, old_histories, histories, id),
                )
        },
        Err(error) => {
            &&& forall|id: Seq<char>| !#[trigger] after.has_recovered(id)
            &&& exists|id: Seq<char>| #[trigger]
                before.portfolio().models.has(id) && fails(
                    before,
                    old_histories,
                    histories,
                    id,
                    error@,
                ) && forall|other: Seq<char>| #[trigger]
                    before.portfolio().models.has(other) && text::before(other, id) ==> !(exists|
                        reason: Seq<char>,
                    | #[trigger]
                        fails(before, old_histories, histories, other, reason))
        },
    }
}

/// Whether a leg cannot be recovered, and why.
pub open spec fn fails(
    publication: Publication,
    before: Map<Seq<char>, Seq<HistoryBar>>,
    after: Map<Seq<char>, Seq<HistoryBar>>,
    id: Seq<char>,
    reason: Seq<char>,
) -> bool {
    &&& is_due(publication, before, after, id)
    &&& Leg::seeded(publication.portfolio().models.at(id).setup(), after[id]).1 == Err::<
        (),
        Seq<char>,
    >(reason)
}

proof fn lemma_read_bars(read: Seq<Reading>, count: int)
    requires
        0 <= count <= read.len(),
        read_bars(read.take(count)) is Err,
    ensures
        read_bars(read) == read_bars(read.take(count)),
    decreases read.len(),
{
    if count == read.len() {
        assert(read.take(count) =~= read);
    } else {
        assert(read.drop_last().take(count) =~= read.take(count));
        lemma_read_bars(read.drop_last(), count);
    }
}

proof fn lemma_closed_in_range(klines: Seq<CtpdKline>)
    ensures
        ctpd::closed_bars(klines) matches Ok(bars) ==> forall|i: int|
            0 <= i < bars.len() ==> (#[trigger] bars[i]).timestamp_ns <= i64::MAX,
    decreases klines.len(),
{
    if klines.len() > 0 {
        lemma_closed_in_range(klines.drop_last());
    }
}

/// The closed bars of readings, one after the other.
fn collect(read: Vec<Reading>) -> (r: Result<Vec<RecoveredKline>, String>)
    ensures
        match read_bars(read@) {
            Ok(found) => r matches Ok(klines) && entries(klines@) == found && forall|i: int|
                0 <= i < klines@.len() ==> (#[trigger] klines@[i]).bar.timestamp_ns <= i64::MAX,
            Err(error) => r matches Err(message) && message@ == error,
        },
{
    let ghost all = read@;
    let mut out: Vec<RecoveredKline> = Vec::new();
    assert(all.take(0) =~= Seq::<Reading>::empty());
    assert(entries(out@) =~= Seq::<(Seq<char>, crate::fixed_capital::HistoryBar)>::empty());
    for reading in it: read
        invariant
            it.seq() == all,
            read@ == all,
            read_bars(all.take(it.index())) == Ok::<
                Seq<(Seq<char>, crate::fixed_capital::HistoryBar)>,
                Seq<char>,
            >(entries(out@)),
            forall|i: int|
                0 <= i < out@.len() ==> (#[trigger] out@[i]).bar.timestamp_ns <= i64::MAX,
    {
        let ghost market = reading.0@;
        proof {
            assert(all.take(it.index() + 1).drop_last() =~= all.take(it.index()));
            assert(all.take(it.index() + 1).last() == reading);
        }
        let klines: Vec<CtpdKline> = match reading.1 {
            Ok(klines) => klines,
            Err(error) => {
                proof {
                    lemma_read_bars(all, it.index() + 1);
                }
                return Err(error);
            },
        };
        let ghost given = klines@;
        let recovered: Vec<RecoveredKline> = match ctpd::recovered_bars(
            reading.0.as_str(),
            klines,
        ) {
            Ok(recovered) => recovered,
            Err(error) => {
                proof {
                    lemma_read_bars(all, it.index() + 1);
                }
                return Err(error);
            },
        };
        let ghost before = out@;
        let ghost new = recovered@;
        let ghost bars = ctpd::closed_bars(arrange::arranged(given))->Ok_0;
        proof {
            lemma_closed_in_range(arrange::arranged(given));
        }
        let mut recovered: Vec<RecoveredKline> = recovered;
        out.append(&mut recovered);
        proof {
            assert(out@ =~= before + new);
            assert(entries(out@) =~= entries(before) + tagged(market, bars));
            assert forall|i: int| 0 <= i < out@.len() implies (
            #[trigger] out@[i]).bar.timestamp_ns <= i64::MAX by {
                if i >= before.len() {
                    assert(out@[i] == new[i - before.len()]);
                    assert(new[i - before.len()].bar == bars[i - before.len()]);
                }
            }
        }
    }
    assert(all.take(all.len() as int) =~= all);
    Ok(out)
}

/// Whether every market has a history.
fn are_seeded(
    publication: &Publication,
    histories: &TextMap<Vec<HistoryBar>>,
    klines: &Vec<RecoveredKline>,
) -> (r: bool)
    requires
        publication.well_formed(),
        histories.well_formed(),
    ensures
        r == ((forall|i: int|
            0 <= i < klines@.len() ==> histories.has(
                (#[trigger] klines@[i]).market_instrument_id@,
            )) && (forall|id: Seq<char>| #[trigger]
            publication.portfolio().models.has(id) ==> histories.has(id))),
{
    let mut i: usize = 0;
    while i < klines.len()
        invariant
            i <= klines@.len(),
            histories.well_formed(),
            forall|j: int|
                0 <= j < i ==> histories.has((#[trigger] klines@[j]).market_instrument_id@),
        decreases klines@.len() - i,
    {
        if !histories.contains(klines[i].market_instrument_id.as_str()) {
            assert(!histories.has(klines@[i as int].market_instrument_id@));
            return false;
        }
        i = i + 1;
    }
    let ids: Vec<String> = publication.leg_ids();
    let mut i: usize = 0;
    while i < ids.len()
        invariant
            i <= ids@.len(),
            histories.well_formed(),
            forall|id: Seq<char>| #[trigger]
                ordered::occurs(ids@, id) <==> publication.portfolio().models.has(id),
            forall|j: int| 0 <= j < i ==> histories.has((#[trigger] ids@[j])@),
        decreases ids@.len() - i,
    {
        if !histories.contains(ids[i].as_str()) {
            proof {
                let id = ids@[i as int]@;
                assert(ordered::occurs(ids@, id));
                assert(publication.portfolio().models.has(id) && !histories.has(id));
            }
            return false;
        }
        i = i + 1;
    }
    assert forall|id: Seq<char>| #[trigger] publication.portfolio().models.has(
        id,
    ) implies histories.has(id) by {
        assert(ordered::occurs(ids@, id));
        let j = ordered::place(ids@, id);
        assert(ids@[j]@ == id);
    }
    true
}

/// One history was changed.
proof fn lemma_chart_updated(
    before: TextMap<Vec<HistoryBar>>,
    after: TextMap<Vec<HistoryBar>>,
    market: Seq<char>,
    history: Vec<HistoryBar>,
)
    requires
        before.well_formed(),
        before.has(market),
        after.keys() == before.keys(),
        after.values() == before.values().update(ordered::place(before.keys(), market), history),
    ensures
        chart(after) == chart(before).insert(market, history@),
{
    before.lemma_increasing();
    let at = ordered::place(before.keys(), market);
    assert(before.keys()[at]@ == market);
    assert forall|other: Seq<char>| after.has(other) && other != market implies #[trigger] after.at(
        other,
    ) == before.at(other) by {
        let i = ordered::place(before.keys(), other);
        assert(before.keys()[i]@ == other);
    }
    assert forall|other: Seq<char>| #[trigger] chart(after).dom().contains(other) == chart(
        before,
    ).insert(market, history@).dom().contains(other) by {
        assert(after.has(other) == before.has(other));
    }
    assert forall|other: Seq<char>| #[trigger] chart(after).dom().contains(other) implies chart(
        after,
    )[other] == chart(before).insert(market, history@)[other] by {
        if other != market {
            assert(after.at(other) == before.at(other));
        }
    }
    assert(chart(after) =~= chart(before).insert(market, history@));
}

/// Whether histories have only grown, and which of them have.
spec fn grown(
    before: Map<Seq<char>, Seq<HistoryBar>>,
    after: Map<Seq<char>, Seq<HistoryBar>>,
    advanced: TextSet,
) -> bool {
    &&& after.dom() == before.dom()
    &&& forall|market: Seq<char>| #[trigger]
        before.contains_key(market) ==> before[market].is_prefix_of(after[market])
            && advanced.has(market) == (after[market].len() > before[market].len())
}

/// Applies recovered bars, in the order of time and market, and says how many of
/// them were new and to which markets.
fn apply(histories: &mut TextMap<Vec<HistoryBar>>, klines: Vec<RecoveredKline>) -> (r: (
    usize,
    TextSet,
))
    requires
        old(histories).well_formed(),
        forall|i: int|
            0 <= i < klines@.len() ==> {
                &&& old(histories).has((#[trigger] klines@[i]).market_instrument_id@)
                &&& klines@[i].bar.timestamp_ns <= i64::MAX
            },
    ensures
        final(histories).well_formed(),
        r.1.well_formed(),
        ({
            let (after, count) = absorbed(
                chart(*old(histories)),
                arrange::arranged(klines@),
            );
            &&& chart(*final(histories)) == after
            &&& r.0 == count
            &&& grown(chart(*old(histories)), after, r.1)
        }),
{
    let ghost start = chart(*histories);
    let ghost given = klines@;
    let mut advanced: TextSet = TextSet::new();
    let mut run: RecoveryRun = RecoveryRun::new(klines);
    let ghost sorted = run.klines@;
    proof {
        arrange::law_arranged(given);
        assert forall|i: int| 0 <= i < sorted.len() implies start.contains_key(
            (#[trigger] sorted[i]).market_instrument_id@,
        ) && sorted[i].bar.timestamp_ns <= i64::MAX by {
            arrange::lemma_arranged_contains(given, i);
            let m = choose|m: int| 0 <= m < given.len() && given[m] == sorted[i];
            assert(histories.has(given[m].market_instrument_id@));
        }
        assert(sorted.take(0) =~= Seq::<RecoveredKline>::empty());
        assert(grown(start, start, advanced));
    }
    loop
        invariant
            run.well_formed(),
            run.klines@ == sorted,
            sorted == arrange::arranged(given),
            given == klines@,
            forall|i: int|
                0 <= i < sorted.len() ==> start.contains_key(
                    (#[trigger] sorted[i]).market_instrument_id@,
                ) && sorted[i].bar.timestamp_ns <= i64::MAX,
            start == chart(*old(histories)),
            histories.well_formed(),
            advanced.well_formed(),
            chart(*histories) == absorbed(start, sorted.take(run.next as int)).0,
            run.applied == absorbed(start, sorted.take(run.next as int)).1,
            grown(start, chart(*histories), advanced),
        decreases
                sorted.len() - run.next,
                if run.batch_applied {
                    1int
                } else {
                    0
                },
    {
        match run.action() {
            RecoveryAction::Finished(applied) => {
                assert(sorted.take(run.next as int) =~= sorted);
                return (applied, advanced);
            },
            RecoveryAction::Flush => {
                run.flushed();
            },
            RecoveryAction::Ingest(at) => {
                let ghost kline = sorted[at as int];
                let ghost market = kline.market_instrument_id@;
                let ghost before = *histories;
                let ghost known = chart(before);
                proof {
                    assert(start.contains_key(market));
                    assert(known.dom() == start.dom());
                    assert(known.contains_key(market));
                    assert(before.has(market));
                    let longer = sorted.take(at + 1);
                    assert(longer.drop_last() =~= sorted.take(at as int));
                    assert(longer.last() == kline);
                }
                let mut applied: bool = false;
                let ghost mut now: Vec<HistoryBar> = before.at(market);
                match histories.get_mut(run.klines[at].market_instrument_id.as_str()) {
                    None => {},
                    Some(history) => {
                        let outcome: Result<bool, String> = seed::append_recovered(
                            history,
                            &run.klines[at].bar,
                        );
                        proof {
                            now = *history;
                        }
                        match outcome {
                            Ok(new) => {
                                applied = new;
                            },
                            Err(_) => {},
                        }
                    },
                }
                proof {
                    lemma_chart_updated(before, *histories, market, now);
                    assert(applied == is_new(known[market], kline));
                    if !applied {
                        assert(now@ == known[market]);
                        assert(known.insert(market, known[market]) =~= known);
                    }
                }
                let ghost old_advanced = advanced;
                if applied {
                    let _new: bool = advanced.insert(run.klines[at].market_instrument_id.clone());
                }
                run.ingested(applied);
                proof {
                    let after = chart(*histories);
                    assert forall|other: Seq<char>| #[trigger] start.contains_key(
                        other,
                    ) implies start[other].is_prefix_of(after[other]) && advanced.has(other) == (
                    after[other].len() > start[other].len()) by {
                        assert(start[other].is_prefix_of(known[other]));
                        assert(old_advanced.has(other) == (known[other].len()
                            > start[other].len()));
                        if other == market && applied {
                            assert(after[other] == known[other].push(
                                seed::on_wall_clock(kline.bar),
                            ));
                        }
                    }
                    assert(after.dom() =~= start.dom());
                }
            },
        }
    }
}

/// Recovers every leg from what was read of the markets.
///
/// Where a reading failed or cannot be used, nothing changes. Otherwise the
/// closed bars join the histories in the order of time and market, and every leg
/// that was not recovered yet, or whose history advanced, is recovered. How many
/// bars were new is told. Where a leg cannot be recovered, no target of any leg is
/// published.
pub fn recover_all(
    publication: &mut Publication,
    histories: &mut TextMap<Vec<HistoryBar>>,
    read: Vec<Reading>,
) -> (r: Result<usize, String>)
    requires
        old(publication).well_formed(),
        old(histories).well_formed(),
    ensures
        final(publication).well_formed(),
        final(histories).well_formed(),
        match refusal(*old(publication), chart(*old(histories)), read@) {
            Some(error) => {
                &&& r matches Err(message) && message@ == error
                &&& *final(publication) == *old(publication)
                &&& *final(histories) == *old(histories)
            },
            None => exists|klines: Seq<RecoveredKline>| #[trigger]
                entries(klines) == read_bars(read@)->Ok_0 && ({
                    let (after, count) = absorbed(
                        chart(*old(histories)),
                        arrange::arranged(klines),
                    );
                    &&& chart(*final(histories)) == after
                    &&& is_applied(
                        r,
                        *old(publication),
                        *final(publication),
                        chart(*old(histories)),
                        after,
                        count,
                    )
                }),
        },
{
    let klines: Vec<RecoveredKline> = collect(read)?;
    let ghost start = chart(*histories);
    let ghost given = klines@;
    let ghost found = entries(klines@);
    proof {
        assert forall|i: int| 0 <= i < found.len() implies (#[trigger] found[i]).0
            == given[i].market_instrument_id@ by {}
    }
    if !are_seeded(publication, histories, &klines) {
        proof {
            if !(forall|id: Seq<char>| #[trigger]
                publication.portfolio().models.has(id) ==> histories.has(id)) {
                let id = choose|id: Seq<char>| #[trigger]
                    publication.portfolio().models.has(id) && !histories.has(id);
                assert(publication.portfolio().models.has(id) && !start.contains_key(id));
            } else {
                let i = choose|i: int|
                    0 <= i < given.len() && !histories.has(
                        (#[trigger] given[i]).market_instrument_id@,
                    );
                assert(!start.contains_key(found[i].0));
            }
        }
        return Err("cannot recover CTPD Klines before Parquet history is seeded".to_owned());
    }
    proof {
        assert forall|i: int| 0 <= i < found.len() implies start.contains_key(
            (#[trigger] found[i]).0,
        ) by {
            assert(histories.has(given[i].market_instrument_id@));
        }
        assert forall|id: Seq<char>| #[trigger] publication.portfolio().models.has(
            id,
        ) implies start.contains_key(id) by {
            assert(histories.has(id));
        }
        assert(refusal(*publication, start, read@) is None);
    }
    let (applied, advanced): (usize, TextSet) = apply(histories, klines);
    let ghost after = chart(*histories);
    proof {
        assert forall|id: Seq<char>| #[trigger] publication.portfolio().models.has(
            id,
        ) implies histories.has(id) by {
            assert(start.contains_key(id));
            assert(after.contains_key(id));
        }
    }
    let r: Result<usize, String> = recover_legs(
        publication,
        histories,
        &advanced,
        applied,
        Ghost(start),
    );
    assert(entries(given) == read_bars(read@)->Ok_0);
    r
}

/// Recovers the legs one after the other, those whose market is among `advanced`
/// in any case, and hands on how many bars were applied.
fn recover_legs(
    publication: &mut Publication,
    histories: &TextMap<Vec<HistoryBar>>,
    advanced: &TextSet,
    applied: usize,
    Ghost(start): Ghost<Map<Seq<char>, Seq<HistoryBar>>>,
) -> (r: Result<usize, String>)
    requires
        old(publication).well_formed(),
        histories.well_formed(),
        advanced.well_formed(),
        grown(start, chart(*histories), *advanced),
        forall|id: Seq<char>| #[trigger]
            old(publication).portfolio().models.has(id) ==> histories.has(id),
    ensures
        final(publication).well_formed(),
        is_applied(
            r,
            *old(publication),
            *final(publication),
            start,
            chart(*histories),
            applied as int,
        ),
{
    let ghost before = *publication;
    let ghost after = chart(*histories);
    let ids: Vec<String> = publication.leg_ids();
    let mut i: usize = 0;
    while i < ids.len()
        invariant
            i <= ids@.len(),
            before == *old(publication),
            after == chart(*histories),
            histories.well_formed(),
            advanced.well_formed(),
            grown(start, after, *advanced),
            ordered::increasing(ids@),
            forall|id: Seq<char>| #[trigger]
                ordered::occurs(ids@, id) <==> before.portfolio().models.has(id),
            forall|id: Seq<char>| #[trigger]
                before.portfolio().models.has(id) ==> histories.has(id),
            publication.well_formed(),
            forall|id: Seq<char>| #[trigger]
                publication.portfolio().models.has(id) == before.portfolio().models.has(id),
            forall|j: int|
                0 <= j < i ==> is_done(before, *publication, start, after, (#[trigger] ids@[j])@),
            forall|j: int| i <= j < ids@.len() ==> is_left(before, *publication, (#[trigger] ids@[j])@),
        decreases ids@.len() - i,
    {
        let ghost id = ids@[i as int]@;
        let ghost earlier = *publication;
        proof {
            assert(ordered::occurs(ids@, id));
            assert(before.portfolio().models.has(id));
            assert(histories.has(id));
            assert(is_left(before, earlier, id));
            assert(after.contains_key(id));
            assert(start.contains_key(id));
            assert(earlier.portfolio().models.has(id));
        }
        let fresh: bool = advanced.contains(ids[i].as_str());
        assert(fresh == (after[id] != start[id])) by {
            assert(start[id].is_prefix_of(after[id]));
            if after[id].len() == start[id].len() {
                assert(after[id] =~= start[id]);
            }
        }
        let outcome: Result<(), String> = match histories.get(ids[i].as_str()) {
            Some(history) => publication.recover(ids[i].as_str(), history.as_slice(), fresh),
            None => Ok(()),
        };
        proof {
            assert forall|j: int| 0 <= j < ids@.len() && j != i implies ids@[j]@ != id by {
                text::lemma_before_irreflexive(id);
                if j < i {
                    assert(text::before(ids@[j]@, ids@[i as int]@));
                } else {
                    assert(text::before(ids@[i as int]@, ids@[j]@));
                }
            }
            assert forall|other: Seq<char>| other != id implies same_leg(
                earlier,
                *publication,
                other,
            ) by {
                assert(model::alike(
                    publication.portfolio().models,
                    earlier.portfolio().models,
                    other,
                ));
                assert(model::alike(
                    publication.portfolio().targets,
                    earlier.portfolio().targets,
                    other,
                ));
            }
            assert forall|other: Seq<char>| #[trigger] publication.portfolio().models.has(other)
                == before.portfolio().models.has(other) by {
                assert(earlier.portfolio().models.has(other) == before.portfolio().models.has(
                    other,
                ));
                if other != id {
                    assert(same_leg(earlier, *publication, other));
                }
            }
        }
        match outcome {
            Ok(()) => {
                proof {
                    assert(is_done(before, *publication, start, after, id));
                    assert forall|j: int| 0 <= j < i + 1 implies is_done(
                        before,
                        *publication,
                        start,
                        after,
                        (#[trigger] ids@[j])@,
                    ) by {
                        if j < i {
                            let other = ids@[j]@;
                            assert(ordered::occurs(ids@, other));
                            assert(before.portfolio().models.has(other));
                            assert(earlier.portfolio().models.has(other));
                            assert(is_done(before, earlier, start, after, other));
                            assert(same_leg(earlier, *publication, other));
                            assert(publication.has_recovered(other));
                        }
                    }
                    assert forall|j: int| i < j < ids@.len() implies is_left(
                        before,
                        *publication,
                        (#[trigger] ids@[j])@,
                    ) by {
                        let other = ids@[j]@;
                        assert(ordered::occurs(ids@, other));
                        assert(before.portfolio().models.has(other));
                        assert(earlier.portfolio().models.has(other));
                        assert(is_left(before, earlier, other));
                        assert(same_leg(earlier, *publication, other));
                        assert(publication.has_recovered(other) == earlier.has_recovered(other));
                    }
                }
            },
            Err(error) => {
                proof {
                    assert(fails(before, start, after, id, error@));
                    assert forall|other: Seq<char>| #[trigger]
                        before.portfolio().models.has(other) && text::before(other, id) implies !(
                    exists|reason: Seq<char>| #[trigger]
                        fails(before, start, after, other, reason)) by {
                        assert(ordered::occurs(ids@, other));
                        let j = ordered::place(ids@, other);
                        assert(ids@[j]@ == other);
                        text::lemma_before_irreflexive(id);
                        if j > i {
                            text::lemma_before_asymmetric(other, id);
                            assert(text::before(ids@[i as int]@, ids@[j]@));
                        }
                        assert(is_done(before, earlier, start, after, other));
                    }
                }
                return Err(error);
            },
        }
        i = i + 1;
    }
    proof {
        assert forall|id: Seq<char>| #[trigger] before.portfolio().models.has(id) implies is_done(
            before,
            *publication,
            start,
            after,
            id,
        ) by {
            assert(ordered::occurs(ids@, id));
            let j = ordered::place(ids@, id);
            assert(is_done(before, *publication, start, after, ids@[j]@));
        }
        assert(publication.synchronized());
    }
    Ok(applied)
}

/// Whether a leg was recovered.
spec fn is_done(
    before: Publication,
    after: Publication,
    start: Map<Seq<char>, Seq<HistoryBar>>,
    histories: Map<Seq<char>, Seq<HistoryBar>>,
    id: Seq<char>,
) -> bool {
    &&& after.has_recovered(id)
    &&& is_recovered(before, after, id, histories[id], is_due(before, start, histories, id))
}

/// Whether a leg is as it was.
spec fn is_left(before: Publication, after: Publication, id: Seq<char>) -> bool {
    &&& after.has_recovered(id) == before.has_recovered(id)
    &&& after.portfolio().models.at(id) == before.portfolio().models.at(id)
    &&& model::alike(after.portfolio().targets, before.portfolio().targets, id)
}

/// Whether a leg stayed the same.
spec fn same_leg(before: Publication, after: Publication, id: Seq<char>) -> bool {
    &&& model::alike(after.portfolio().models, before.portfolio().models, id)
    &&& model::alike(after.portfolio().targets, before.portfolio().targets, id)
}

/// Whether the bars of a history follow each other in time.
pub open spec fn in_time(history: Seq<HistoryBar>) -> bool {
    forall|i: int, j: int|
        0 <= i < j < history.len() ==> (#[trigger] history[i]).timestamp_ns < (
        #[trigger] history[j]).timestamp_ns
}

/// Recovery only adds to histories, and keeps their bars in the order of time.
pub proof fn law_recovery_keeps_histories_in_time(
    histories: Map<Seq<char>, Seq<HistoryBar>>,
    klines: Seq<RecoveredKline>,
)
    requires
        forall|market: Seq<char>| #[trigger]
            histories.contains_key(market) ==> in_time(histories[market]),
        forall|i: int|
            0 <= i < klines.len() ==> histories.contains_key(
                (#[trigger] klines[i]).market_instrument_id@,
            ),
    ensures
        absorbed(histories, klines).0.dom() == histories.dom(),
        forall|market: Seq<char>| #[trigger]
            histories.contains_key(market) ==> {
                &&& in_time(absorbed(histories, klines).0[market])
                &&& histories[market].is_prefix_of(absorbed(histories, klines).0[market])
            },
    decreases klines.len(),
{
    if klines.len() > 0 {
        let fewer = klines.drop_last();
        assert forall|i: int| 0 <= i < fewer.len() implies histories.contains_key(
            (#[trigger] fewer[i]).market_instrument_id@,
        ) by {
            assert(klines[i] == fewer[i]);
        }
        law_recovery_keeps_histories_in_time(histories, fewer);
        let kline = klines[klines.len() - 1];
        let here = kline.market_instrument_id@;
        let before = absorbed(histories, fewer).0;
        let after = absorbed(histories, klines).0;
        assert(histories.contains_key(here));
        assert(after.dom() =~= histories.dom());
        assert forall|market: Seq<char>| #[trigger] histories.contains_key(market) implies {
            &&& in_time(after[market])
            &&& histories[market].is_prefix_of(after[market])
        } by {
            assert(in_time(before[market]));
            if market == here && is_new(before[here], kline) {
                let history = before[here];
                let longer = history.push(seed::on_wall_clock(kline.bar));
                assert forall|i: int, j: int| 0 <= i < j < longer.len() implies (
                #[trigger] longer[i]).timestamp_ns < (#[trigger] longer[j]).timestamp_ns by {
                    if j == history.len() {
                        if i < history.len() - 1 {
                            assert(history[i].timestamp_ns < history[history.len()
                                - 1].timestamp_ns);
                        }
                    } else {
                        assert(longer[i] == history[i] && longer[j] == history[j]);
                    }
                }
            }
        }
    }
}

/// A recovered bar that lies after all of its market's history is appended to it and
/// counted, with its prices and eight hours on; one that does not changes nothing. No other
/// history changes either way.
pub proof fn law_later_bars_are_appended(
    histories: Map<Seq<char>, Seq<HistoryBar>>,
    klines: Seq<RecoveredKline>,
    next: RecoveredKline,
    other: Seq<char>,
)
    requires
        next.bar.timestamp_ns <= i64::MAX,
    ensures
        absorbed(histories, Seq::empty()) == (histories, 0int),
        ({
            let market = next.market_instrument_id@;
            let (before, count) = absorbed(histories, klines);
            let (after, counted) = absorbed(histories, klines.push(next));
            let at = next.bar.timestamp_ns + 28_800_000_000_000;
            let later = before[market].len() == 0 || before[market].last().timestamp_ns < at;
            &&& !later ==> after == before && counted == count
            &&& later ==> {
                &&& counted == count + 1
                &&& after[market].len() == before[market].len() + 1
                &&& after[market].drop_last() == before[market]
                &&& after[market].last().timestamp_ns == at
                &&& after[market].last().open == next.bar.open
                &&& after[market].last().close == next.bar.close
                &&& after[market].last().open_interest == next.bar.open_interest
            }
            &&& other != market ==> after[other] == before[other]
        }),
{
    let market = next.market_instrument_id@;
    assert(klines.push(next).drop_last() =~= klines);
    let (before, count) = absorbed(histories, klines);
    let (after, counted) = absorbed(histories, klines.push(next));
    crate::live::feed::law_seeds_stand_on_the_clock_of_shanghai(next.bar);
    if is_new(before[market], next) {
        assert(after[market].drop_last() =~= before[market]);
    }
}

/// Where a reading failed, whatever else was read, nothing is applied.
pub proof fn law_a_failed_reading_stops_recovery(
    publication: Publication,
    histories: Map<Seq<char>, Seq<HistoryBar>>,
    read: Seq<Reading>,
    i: int,
)
    requires
        0 <= i < read.len(),
        read[i].1 is Err,
    ensures
        refusal(publication, histories, read) is Some,
{
    let through = read.take(i + 1);
    assert(through.last() == read[i]);
    assert(read_bars(through) is Err);
    lemma_read_bars(read, i + 1);
}

/// Where a recovered bar's market or a leg has no history, nothing is applied; where all have
/// one and all was read, nothing stops the recovery.
pub proof fn law_histories_are_needed(
    publication: Publication,
    histories: Map<Seq<char>, Seq<HistoryBar>>,
    read: Seq<Reading>,
)
    requires
        read_bars(read) is Ok,
    ensures
        refusal(publication, histories, read) is None <==> {
            &&& forall|i: int|
                0 <= i < read_bars(read)->Ok_0.len() ==> histories.contains_key(
                    (#[trigger] read_bars(read)->Ok_0[i]).0,
                )
            &&& forall|id: Seq<char>| #[trigger]
                publication.portfolio().models.has(id) ==> histories.contains_key(id)
        },
{
}

/// A recovery that succeeds leaves every leg recovered, and shows no target of a leg that was
/// not before; no leg comes or goes. One that fails leaves none recovered.
pub proof fn law_recovery_is_for_every_leg(
    r: Result<usize, String>,
    before: Publication,
    after: Publication,
    old_histories: Map<Seq<char>, Seq<HistoryBar>>,
    histories: Map<Seq<char>, Seq<HistoryBar>>,
    count: int,
    id: Seq<char>,
)
    requires
        is_applied(r, before, after, old_histories, histories, count),
    ensures
        after.portfolio().models.has(id) == before.portfolio().models.has(id),
        r is Ok ==> after.synchronized() && r->Ok_0 == count,
        r is Ok && before.portfolio().models.has(id) && !before.has_recovered(id)
            ==> !after.portfolio().targets.has(id) && after.portfolio().models.at(id).leg()
            == Leg::seeded(before.portfolio().models.at(id).setup(), histories[id]).0,
        r is Err ==> !after.has_recovered(id),
{
}

} // verus!
