//! The histories that seed the models: how long they are, how recovered bars
//! join them, and in which order several of them are replayed.

use crate::data;
use crate::fixed_capital::timeline;
use crate::fixed_capital::{HistoryBar, InstrumentHistory};
use crate::live::market_time;
use crate::live::market_time::WallClock;
use crate::text;
use vstd::prelude::*;

verus! {

/// A bar of a history, by its place.
#[derive(Clone, Copy, Debug, PartialEq, Eq, Structural)]
pub struct MergedBar {
    pub history: usize,
    pub bar: usize,
    /// Whether it is the last bar of its time.
    pub flush: bool,
}

/// Fails where a history is too short to seed a model.
pub fn check_seed(symbol: &str, bars: usize) -> (r: Result<(), String>)
    ensures
        if bars < 5_000 {
            r matches Err(message) && message@ == symbol@ + " has fewer than 5000 Parquet bars"@
        } else {
            r is Ok
        },
{
    if bars < 5_000 {
        let mut message: String = symbol.to_owned();
        message.append(" has fewer than 5000 Parquet bars");
        return Err(message);
    }
    Ok(())
}

/// The bar of a seed that a recovered bar becomes, on the wall clock of
/// Shanghai.
pub open spec fn on_wall_clock(bar: HistoryBar) -> data::HistoryBar {
    let clock = market_time::shanghai_reading(bar.timestamp_ns);
    data::HistoryBar {
        timestamp_ns: (clock.seconds * 1_000_000_000 + clock.nanoseconds) as u64,
        open: bar.open,
        close: bar.close,
        open_interest: bar.open_interest,
    }
}

/// Appends a recovered bar to a seed, and says whether it was new.
pub fn append_recovered(history: &mut Vec<data::HistoryBar>, bar: &HistoryBar) -> (r: Result<
    bool,
    String,
>)
    ensures
        if bar.timestamp_ns > i64::MAX {
            &&& r matches Err(message) && message@ == "timestamp outside chrono range"@
            &&& final(history)@ == old(history)@
        } else if old(history)@.len() > 0 && on_wall_clock(*bar).timestamp_ns
            <= old(history)@.last().timestamp_ns {
            &&& r == Ok::<bool, String>(false)
            &&& final(history)@ == old(history)@
        } else {
            &&& r == Ok::<bool, String>(true)
            &&& final(history)@ == old(history)@.push(on_wall_clock(*bar))
        },
{
    let clock: WallClock = market_time::market_datetime(bar.timestamp_ns)?;
    let timestamp_ns: u64 = clock.seconds as u64 * 1_000_000_000 + clock.nanoseconds as u64;
    if history.len() > 0 && timestamp_ns <= history[history.len() - 1].timestamp_ns {
        return Ok(false);
    }
    history.push(
        data::HistoryBar {
            timestamp_ns,
            open: bar.open,
            close: bar.close,
            open_interest: bar.open_interest,
        },
    );
    Ok(true)
}

/// Whether a place is one of the histories.
pub open spec fn placed(histories: Seq<InstrumentHistory>, h: int, k: int) -> bool {
    0 <= h < histories.len() && 0 <= k < histories[h].bars@.len()
}

/// The time of a bar.
pub open spec fn time_at(histories: Seq<InstrumentHistory>, h: int, k: int) -> u64 {
    histories[h].bars@[k].timestamp_ns
}

/// Whether a bar comes before another: by time, then by market.
pub open spec fn comes_before(
    histories: Seq<InstrumentHistory>,
    h: int,
    k: int,
    other_h: int,
    other_k: int,
) -> bool {
    time_at(histories, h, k) < time_at(histories, other_h, other_k) || (time_at(histories, h, k)
        == time_at(histories, other_h, other_k) && text::before(
        histories[h].instrument@,
        histories[other_h].instrument@,
    ))
}

/// Whether `order` lists every bar once, by time and market, and marks the last
/// bar of every time.
pub open spec fn is_merged(order: Seq<MergedBar>, histories: Seq<InstrumentHistory>) -> bool {
    &&& forall|i: int|
        0 <= i < order.len() ==> placed(
            histories,
            (#[trigger] order[i]).history as int,
            order[i].bar as int,
        )
    &&& forall|i: int, j: int|
        0 <= i < j < order.len() ==> comes_before(
            histories,
            (#[trigger] order[i]).history as int,
            order[i].bar as int,
            (#[trigger] order[j]).history as int,
            order[j].bar as int,
        )
    &&& forall|h: int, k: int| #[trigger]
        placed(histories, h, k) ==> exists|i: int|
            0 <= i < order.len() && (#[trigger] order[i]).history == h && order[i].bar == k
    &&& forall|i: int|
        0 <= i < order.len() ==> (#[trigger] order[i]).flush == (i + 1 == order.len() || time_at(
            histories,
            order[i].history as int,
            order[i].bar as int,
        ) != time_at(histories, order[i + 1].history as int, order[i + 1].bar as int))
}

/// The market whose next bar comes first.
fn next_history(histories: &[InstrumentHistory], cursors: &Vec<usize>) -> (r: Option<usize>)
    requires
        timeline::distinct(histories@),
        cursors@.len() == histories@.len(),
        forall|h: int|
            0 <= h < histories@.len() ==> (#[trigger] cursors@[h]) <= histories@[h].bars@.len(),
    ensures
        match r {
            None => forall|h: int|
                0 <= h < histories@.len() ==> #[trigger] cursors@[h] == histories@[h].bars@.len(),
            Some(g) => {
                &&& placed(histories@, g as int, cursors@[g as int] as int)
                &&& forall|h: int|
                    0 <= h < histories@.len() && h != g && (#[trigger] cursors@[h])
                        < histories@[h].bars@.len() ==> comes_before(
                        histories@,
                        g as int,
                        cursors@[g as int] as int,
                        h,
                        cursors@[h] as int,
                    )
            },
        },
{
    let mut best: Option<usize> = None;
    let mut h: usize = 0;
    while h < histories.len()
        invariant
            h <= histories@.len(),
            timeline::distinct(histories@),
            cursors@.len() == histories@.len(),
            forall|i: int|
                0 <= i < histories@.len() ==> (#[trigger] cursors@[i]) <= histories@[i].bars@.len(),
            match best {
                None => forall|i: int|
                    0 <= i < h ==> #[trigger] cursors@[i] == histories@[i].bars@.len(),
                Some(g) => {
                    &&& g < h
                    &&& placed(histories@, g as int, cursors@[g as int] as int)
                    &&& forall|i: int|
                        0 <= i < h && i != g && (#[trigger] cursors@[i])
                            < histories@[i].bars@.len() ==> comes_before(
                            histories@,
                            g as int,
                            cursors@[g as int] as int,
                            i,
                            cursors@[i] as int,
                        )
                },
            },
        decreases histories@.len() - h,
    {
        if cursors[h] < histories[h].bars.len() {
            match best {
                None => {
                    best = Some(h);
                },
                Some(g) => {
                    let here: u64 = histories[h].bars[cursors[h]].timestamp_ns;
                    let there: u64 = histories[g].bars[cursors[g]].timestamp_ns;
                    let first: bool = here < there || (here == there && text::is_before(
                        histories[h].instrument.as_str(),
                        histories[g].instrument.as_str(),
                    ));
                    proof {
                        let a = histories@[g as int].instrument@;
                        let b = histories@[h as int].instrument@;
                        text::lemma_before_total(a, b);
                        assert(a != b);
                        if first {
                            assert forall|i: int|
                                0 <= i < h + 1 && i != h && (#[trigger] cursors@[i])
                                    < histories@[i].bars@.len() implies comes_before(
                                histories@,
                                h as int,
                                cursors@[h as int] as int,
                                i,
                                cursors@[i] as int,
                            ) by {
                                if i != g {
                                    let c = histories@[i].instrument@;
                                    if text::before(b, a) && text::before(a, c) {
                                        text::lemma_before_transitive(b, a, c);
                                    }
                                }
                            }
                        }
                    }
                    if first {
                        best = Some(h);
                    }
                },
            }
        }
        h = h + 1;
    }
    best
}

/// Whether what was listed is what the cursors have passed, and comes before
/// all that is left.
spec fn is_partial(
    order: Seq<MergedBar>,
    histories: Seq<InstrumentHistory>,
    cursors: Seq<usize>,
) -> bool {
    &&& forall|i: int|
        0 <= i < order.len() ==> placed(
            histories,
            (#[trigger] order[i]).history as int,
            order[i].bar as int,
        )
    &&& forall|i: int, j: int|
        0 <= i < j < order.len() ==> comes_before(
            histories,
            (#[trigger] order[i]).history as int,
            order[i].bar as int,
            (#[trigger] order[j]).history as int,
            order[j].bar as int,
        )
    &&& forall|h: int, k: int| #[trigger]
        placed(histories, h, k) && k < cursors[h] ==> exists|i: int|
            0 <= i < order.len() && (#[trigger] order[i]).history == h && order[i].bar == k
    &&& forall|i: int, h: int|
        0 <= i < order.len() && 0 <= h < histories.len() && (#[trigger] cursors[h])
            < histories[h].bars@.len() ==> comes_before(
            histories,
            (#[trigger] order[i]).history as int,
            order[i].bar as int,
            h,
            cursors[h] as int,
        )
    &&& forall|i: int|
        0 <= i < order.len() - 1 ==> (#[trigger] order[i]).flush == (time_at(
            histories,
            order[i].history as int,
            order[i].bar as int,
        ) != time_at(histories, order[i + 1].history as int, order[i + 1].bar as int))
}

/// Merges histories: every bar once, by time and market, the last of every time
/// marked.
pub fn merge_histories(histories: &[InstrumentHistory]) -> (r: Vec<MergedBar>)
    requires
        timeline::replayable(histories@),
    ensures
        is_merged(r@, histories@),
{
    let mut cursors: Vec<usize> = Vec::new();
    while cursors.len() < histories.len()
        invariant
            cursors@.len() <= histories@.len(),
            forall|h: int| 0 <= h < cursors@.len() ==> #[trigger] cursors@[h] == 0,
        decreases histories@.len() - cursors@.len(),
    {
        cursors.push(0);
    }
    let mut order: Vec<MergedBar> = Vec::new();
    let ghost mut left: int = timeline::total_bars(histories@) - timeline::sum(cursors@);
    proof {
        timeline::lemma_sum_bounded(histories@, cursors@);
    }
    loop
        invariant
            timeline::replayable(histories@),
            cursors@.len() == histories@.len(),
            forall|h: int|
                0 <= h < histories@.len() ==> (#[trigger] cursors@[h]) <= histories@[h].bars@.len(),
            is_partial(order@, histories@, cursors@),
            order@.len() > 0 ==> order@.last().flush == (forall|h: int|
                0 <= h < histories@.len() && (#[trigger] cursors@[h]) < histories@[h].bars@.len()
                    ==> time_at(histories@, h, cursors@[h] as int) != time_at(
                    histories@,
                    order@.last().history as int,
                    order@.last().bar as int,
                )),
            left == timeline::total_bars(histories@) - timeline::sum(cursors@),
            left >= 0,
        ensures
            forall|h: int|
                0 <= h < histories@.len() ==> #[trigger] cursors@[h] == histories@[h].bars@.len(),
        decreases left,
    {
        let h: usize = match next_history(histories, &cursors) {
            Some(h) => h,
            None => {
                break;
            },
        };
        let ghost before = cursors@;
        let ghost listed = order@;
        let k: usize = cursors[h];
        assert(k < histories[h as int].bars.len());
        let now: u64 = histories[h].bars[k].timestamp_ns;
        cursors.set(h, k + 1);
        proof {
            timeline::lemma_sum_update(before, h as int, (k + 1) as usize);
            timeline::lemma_sum_bounded(histories@, cursors@);
            left = left - 1;
        }
        let flush: bool = match timeline::next_timestamp(histories, cursors.as_slice()) {
            Some(next) => next != now,
            None => true,
        };
        order.push(MergedBar { history: h, bar: k, flush });
        proof {
            lemma_merged_step(
                listed,
                order@.last(),
                histories@,
                before,
                cursors@,
            );
        }
    }
    proof {
        assert forall|i: int| 0 <= i < order@.len() implies (#[trigger] order@[i]).flush == (i + 1
            == order@.len() || time_at(
            histories@,
            order@[i].history as int,
            order@[i].bar as int,
        ) != time_at(histories@, order@[i + 1].history as int, order@[i + 1].bar as int)) by {
            if i + 1 == order@.len() {
                assert(order@.last() == order@[i]);
            }
        }
    }
    order
}

/// One bar more.
proof fn lemma_merged_step(
    listed: Seq<MergedBar>,
    next: MergedBar,
    histories: Seq<InstrumentHistory>,
    before: Seq<usize>,
    after: Seq<usize>,
)
    requires
        timeline::replayable(histories),
        before.len() == histories.len(),
        forall|h: int|
            0 <= h < histories.len() ==> (#[trigger] before[h]) <= histories[h].bars@.len(),
        is_partial(listed, histories, before),
        placed(histories, next.history as int, next.bar as int),
        next.bar == before[next.history as int],
        after == before.update(next.history as int, (next.bar + 1) as usize),
        next.bar < usize::MAX,
        forall|h: int|
            0 <= h < histories.len() && h != next.history && (#[trigger] before[h])
                < histories[h].bars@.len() ==> comes_before(
                histories,
                next.history as int,
                next.bar as int,
                h,
                before[h] as int,
            ),
        listed.len() > 0 ==> listed.last().flush == (forall|h: int|
            0 <= h < histories.len() && (#[trigger] before[h]) < histories[h].bars@.len()
                ==> time_at(histories, h, before[h] as int) != time_at(
                histories,
                listed.last().history as int,
                listed.last().bar as int,
            )),
    ensures
        is_partial(listed.push(next), histories, after),
{
    let order = listed.push(next);
    let g = next.history as int;
    let k = next.bar as int;
    assert forall|i: int, j: int| 0 <= i < j < order.len() implies comes_before(
        histories,
        (#[trigger] order[i]).history as int,
        order[i].bar as int,
        (#[trigger] order[j]).history as int,
        order[j].bar as int,
    ) by {
        assert(order[i] == listed[i]);
        if j < listed.len() {
            assert(order[j] == listed[j]);
        } else {
            assert(before[g] < histories[g].bars@.len());
        }
    }
    assert forall|h: int, b: int| #[trigger] placed(histories, h, b) && b < after[h] implies exists|
        i: int,
    |
        0 <= i < order.len() && (#[trigger] order[i]).history == h && order[i].bar == b by {
        if h == g && b == k {
            assert(order[listed.len() as int] == next);
        } else {
            assert(b < before[h]);
            let i = choose|i: int|
                0 <= i < listed.len() && (#[trigger] listed[i]).history == h && listed[i].bar == b;
            assert(order[i] == listed[i]);
        }
    }
    assert forall|i: int, h: int|
        0 <= i < order.len() && 0 <= h < histories.len() && (#[trigger] after[h])
            < histories[h].bars@.len() implies comes_before(
        histories,
        (#[trigger] order[i]).history as int,
        order[i].bar as int,
        h,
        after[h] as int,
    ) by {
        if h == g {
            assert(histories[g].bars@[k].timestamp_ns < histories[g].bars@[k + 1].timestamp_ns);
            if i < listed.len() {
                assert(before[g] < histories[g].bars@.len());
                assert(order[i] == listed[i]);
            }
        } else {
            assert(after[h] == before[h]);
            if i < listed.len() {
                assert(order[i] == listed[i]);
            }
        }
    }
    assert forall|i: int| 0 <= i < order.len() - 1 implies (#[trigger] order[i]).flush == (time_at(
        histories,
        order[i].history as int,
        order[i].bar as int,
    ) != time_at(histories, order[i + 1].history as int, order[i + 1].bar as int)) by {
        assert(order[i] == listed[i]);
        if i < listed.len() - 1 {
            assert(order[i + 1] == listed[i + 1]);
        } else {
            let last = listed.last();
            assert(order[i + 1] == next);
            assert(before[g] < histories[g].bars@.len());
            let then = time_at(histories, last.history as int, last.bar as int);
            if then != time_at(histories, g, k) {
                assert forall|h: int|
                    0 <= h < histories.len() && (#[trigger] before[h])
                        < histories[h].bars@.len() implies time_at(
                    histories,
                    h,
                    before[h] as int,
                ) != then by {
                    assert(comes_before(
                        histories,
                        listed[i].history as int,
                        listed[i].bar as int,
                        g,
                        before[g] as int,
                    ));
                    if h != g {
                        assert(comes_before(histories, g, k, h, before[h] as int));
                    }
                }
            }
        }
    }
}

} // verus!
