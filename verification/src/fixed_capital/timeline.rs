//! The times of a replay, and the bars that stand at each of them.

use super::{HistoryBar, InstrumentHistory, Quote, TimestampBar};
use crate::text;
use vstd::prelude::*;

verus! {

/// Whether a history holds a bar.
pub open spec fn holds(history: InstrumentHistory, bar: HistoryBar) -> bool {
    history.bars@.contains(bar)
}

/// Whether the bars of a history follow each other in time.
pub open spec fn increasing_bars(bars: Seq<HistoryBar>) -> bool {
    forall|i: int, j: int|
        0 <= i < j < bars.len() ==> (#[trigger] bars[i]).timestamp_ns < (
        #[trigger] bars[j]).timestamp_ns
}

/// Whether no two histories belong to the same instrument.
pub open spec fn distinct(histories: Seq<InstrumentHistory>) -> bool {
    forall|i: int, j: int|
        0 <= i < j < histories.len() ==> (#[trigger] histories[i]).instrument@ != (
        #[trigger] histories[j]).instrument@
}

/// Whether histories can be replayed.
pub open spec fn replayable(histories: Seq<InstrumentHistory>) -> bool {
    &&& distinct(histories)
    &&& forall|i: int|
        0 <= i < histories.len() ==> increasing_bars((#[trigger] histories[i]).bars@)
}

/// Whether some bar has a time.
pub open spec fn occurs(histories: Seq<InstrumentHistory>, timestamp_ns: u64) -> bool {
    exists|h: int, k: int|
        0 <= h < histories.len() && 0 <= k < histories[h].bars@.len() && (
        #[trigger] histories[h].bars@[k]).timestamp_ns == timestamp_ns
}

/// Whether `times` lists the times of all bars, each once and in order.
pub open spec fn is_timeline(times: Seq<u64>, histories: Seq<InstrumentHistory>) -> bool {
    &&& forall|i: int, j: int| 0 <= i < j < times.len() ==> times[i] < times[j]
    &&& forall|t: u64| #[trigger] times.contains(t) <==> occurs(histories, t)
}

/// Whether `batch` holds the bar of every instrument that has one at a time, in
/// the order of the instruments.
pub open spec fn is_batch(
    batch: Seq<Quote>,
    histories: Seq<InstrumentHistory>,
    timestamp_ns: u64,
) -> bool {
    &&& super::orderly(batch, timestamp_ns)
    &&& forall|i: int|
        0 <= i < batch.len() ==> exists|h: int|
            0 <= h < histories.len() && (#[trigger] histories[h]).instrument@
                == (#[trigger] batch[i]).instrument && holds(histories[h], batch[i].bar)
    &&& forall|h: int, k: int|
        0 <= h < histories.len() && 0 <= k < histories[h].bars@.len() && (
        #[trigger] histories[h].bars@[k]).timestamp_ns == timestamp_ns ==> batch.contains(
            Quote { instrument: histories[h].instrument@, bar: histories[h].bars@[k] },
        )
}

/// The number of bars in histories.
pub open spec fn total_bars(histories: Seq<InstrumentHistory>) -> int
    decreases histories.len(),
{
    if histories.len() == 0 {
        0
    } else {
        total_bars(histories.drop_last()) + histories.last().bars@.len()
    }
}

/// Whether the cursors stand behind all bars up to a time, and no further.
pub open spec fn passed(
    histories: Seq<InstrumentHistory>,
    cursors: Seq<usize>,
    through: Option<u64>,
) -> bool {
    &&& cursors.len() == histories.len()
    &&& forall|h: int|
        0 <= h < histories.len() ==> (#[trigger] cursors[h]) <= histories[h].bars@.len()
    &&& forall|h: int, k: int|
        0 <= h < histories.len() && 0 <= k < cursors[h] ==> through is Some && (
        #[trigger] histories[h].bars@[k]).timestamp_ns <= through->0
    &&& forall|h: int, k: int|
        0 <= h < histories.len() && cursors[h] <= k < histories[h].bars@.len() && through is Some
            ==> (#[trigger] histories[h].bars@[k]).timestamp_ns > through->0
}

/// Whether `order` lists the histories in the order of their instruments.
pub open spec fn by_name(order: Seq<usize>, histories: Seq<InstrumentHistory>, count: int) -> bool {
    &&& forall|i: int| 0 <= i < order.len() ==> (#[trigger] order[i]) < count
    &&& forall|i: int, j: int|
        0 <= i < j < order.len() ==> text::before(
            histories[(#[trigger] order[i]) as int].instrument@,
            histories[(#[trigger] order[j]) as int].instrument@,
        )
    &&& forall|h: usize| h < count ==> #[trigger] order.contains(h)
}

/// Lists histories in the order of their instruments.
pub fn name_order(histories: &[InstrumentHistory]) -> (r: Vec<usize>)
    requires
        distinct(histories@),
    ensures
        by_name(r@, histories@, histories@.len() as int),
{
    let mut order: Vec<usize> = Vec::new();
    let mut h: usize = 0;
    while h < histories.len()
        invariant
            h <= histories@.len(),
            distinct(histories@),
            by_name(order@, histories@, h as int),
        decreases histories@.len() - h,
    {
        let mut at: usize = 0;
        let ghost name = histories@[h as int].instrument@;
        while at < order.len() && text::is_before(
            histories[order[at]].instrument.as_str(),
            histories[h].instrument.as_str(),
        )
            invariant
                at <= order@.len(),
                h < histories@.len(),
                by_name(order@, histories@, h as int),
                name == histories@[h as int].instrument@,
                forall|i: int|
                    0 <= i < at ==> text::before(
                        histories@[(#[trigger] order@[i]) as int].instrument@,
                        name,
                    ),
            decreases order@.len() - at,
        {
            at = at + 1;
        }
        let ghost before = order@;
        proof {
            assert forall|i: int| at <= i < before.len() implies text::before(
                name,
                histories@[(#[trigger] before[i]) as int].instrument@,
            ) by {
                let first = histories@[before[at as int] as int].instrument@;
                let here = histories@[before[i] as int].instrument@;
                text::lemma_before_total(name, first);
                assert(before[at as int] < h);
                assert(histories@[before[at as int] as int].instrument@ != name);
                if i > at {
                    text::lemma_before_transitive(name, first, here);
                }
            }
        }
        order.insert(at, h);
        proof {
            let after = order@;
            assert forall|i: int, j: int| 0 <= i < j < after.len() implies text::before(
                histories@[(#[trigger] after[i]) as int].instrument@,
                histories@[(#[trigger] after[j]) as int].instrument@,
            ) by {
                let io = if i < at {
                    i
                } else {
                    i - 1
                };
                let jo = if j < at {
                    j
                } else {
                    j - 1
                };
                if i == at {
                    assert(after[j] == before[jo]);
                } else if j == at {
                    assert(after[i] == before[io]);
                } else {
                    assert(after[i] == before[io] && after[j] == before[jo]);
                }
            }
            assert forall|g: usize| g < h + 1 implies #[trigger] after.contains(g) by {
                if g == h {
                    assert(after[at as int] == g);
                } else {
                    assert(before.contains(g));
                    let i = choose|i: int| 0 <= i < before.len() && before[i] == g;
                    if i < at {
                        assert(after[i] == g);
                    } else {
                        assert(after[i + 1] == g);
                    }
                }
            }
            assert forall|i: int| 0 <= i < after.len() implies (#[trigger] after[i]) < h + 1 by {
                if i < at {
                    assert(after[i] == before[i]);
                } else if i > at {
                    assert(after[i] == before[i - 1]);
                }
            }
        }
        h = h + 1;
    }
    order
}

/// The earliest time that the cursors have not passed.
pub fn next_timestamp(histories: &[InstrumentHistory], cursors: &[usize]) -> (r: Option<u64>)
    requires
        cursors@.len() == histories@.len(),
        forall|h: int|
            0 <= h < histories@.len() ==> (#[trigger] cursors@[h]) <= histories@[h].bars@.len(),
    ensures
        match r {
            None => forall|h: int|
                0 <= h < histories@.len() ==> #[trigger] cursors@[h] == histories@[h].bars@.len(),
            Some(t) => {
                &&& exists|h: int|
                    0 <= h < histories@.len() && (#[trigger] cursors@[h]) < histories@[h].bars@.len()
                        && histories@[h].bars@[cursors@[h] as int].timestamp_ns == t
                &&& forall|h: int|
                    0 <= h < histories@.len() && (#[trigger] cursors@[h]) < histories@[h].bars@.len()
                        ==> histories@[h].bars@[cursors@[h] as int].timestamp_ns >= t
            },
        },
{
    let mut best: Option<u64> = None;
    let mut h: usize = 0;
    while h < histories.len()
        invariant
            h <= histories@.len(),
            cursors@.len() == histories@.len(),
            forall|g: int|
                0 <= g < histories@.len() ==> (#[trigger] cursors@[g]) <= histories@[g].bars@.len(),
            match best {
                None => forall|g: int|
                    0 <= g < h ==> #[trigger] cursors@[g] == histories@[g].bars@.len(),
                Some(t) => {
                    &&& exists|g: int|
                        0 <= g < h && (#[trigger] cursors@[g]) < histories@[g].bars@.len()
                            && histories@[g].bars@[cursors@[g] as int].timestamp_ns == t
                    &&& forall|g: int|
                        0 <= g < h && (#[trigger] cursors@[g]) < histories@[g].bars@.len()
                            ==> histories@[g].bars@[cursors@[g] as int].timestamp_ns >= t
                },
            },
        decreases histories@.len() - h,
    {
        let bars: &Vec<HistoryBar> = &histories[h].bars;
        let ghost earlier = best;
        if cursors[h] < bars.len() {
            let t: u64 = bars[cursors[h]].timestamp_ns;
            match best {
                None => {
                    best = Some(t);
                    assert(cursors@[h as int] < histories@[h as int].bars@.len());
                },
                Some(b) => if t < b {
                    best = Some(t);
                    assert(cursors@[h as int] < histories@[h as int].bars@.len());
                },
            }
        }
        h = h + 1;
    }
    best
}

/// Collects the bars that stand at a time and moves their cursors on.
pub(crate) fn gather<'a>(
    histories: &'a [InstrumentHistory],
    order: &Vec<usize>,
    cursors: &mut Vec<usize>,
    timestamp_ns: u64,
    Ghost(through): Ghost<Option<u64>>,
) -> (r: Vec<TimestampBar<'a>>)
    requires
        replayable(histories@),
        by_name(order@, histories@, histories@.len() as int),
        passed(histories@, old(cursors)@, through),
        through matches Some(t) ==> t < timestamp_ns,
        exists|h: int|
            0 <= h < histories@.len() && (#[trigger] old(cursors)@[h]) < histories@[h].bars@.len()
                && histories@[h].bars@[old(cursors)@[h] as int].timestamp_ns == timestamp_ns,
        forall|h: int|
            0 <= h < histories@.len() && (#[trigger] old(cursors)@[h]) < histories@[h].bars@.len()
                ==> histories@[h].bars@[old(cursors)@[h] as int].timestamp_ns >= timestamp_ns,
    ensures
        is_batch(super::quotes(r@), histories@, timestamp_ns),
        r@.len() > 0,
        passed(histories@, final(cursors)@, Some(timestamp_ns)),
        forall|h: int|
            0 <= h < histories@.len() ==> old(cursors)@[h] <= #[trigger] final(cursors)@[h],
        sum(final(cursors)@) == sum(old(cursors)@) + r@.len(),
{
    let ghost start = cursors@;
    let mut batch: Vec<TimestampBar<'a>> = Vec::new();
    let mut i: usize = 0;
    proof {
        assert forall|h: int, k: int|
            0 <= h < histories@.len() && 0 <= k < start[h] implies (
        #[trigger] histories@[h].bars@[k]).timestamp_ns < timestamp_ns by {
            let bar = histories@[h].bars@[k];
            assert(bar.timestamp_ns <= through->0);
        }
    }
    let total: usize = histories.len();
    while i < order.len()
        invariant
            i <= order@.len(),
            replayable(histories@),
            by_name(order@, histories@, histories@.len() as int),
            start == old(cursors)@,
            passed(histories@, start, through),
            cursors@.len() == histories@.len(),
            forall|h: int, k: int|
                0 <= h < histories@.len() && 0 <= k < start[h] ==> (
                #[trigger] histories@[h].bars@[k]).timestamp_ns < timestamp_ns,
            forall|h: int|
                0 <= h < histories@.len() && (#[trigger] start[h]) < histories@[h].bars@.len()
                    ==> histories@[h].bars@[start[h] as int].timestamp_ns >= timestamp_ns,
            forall|h: int|
                0 <= h < histories@.len() ==> {
                    ||| #[trigger] cursors@[h] == start[h]
                    ||| cursors@[h] == start[h] + 1 && start[h] < histories@[h].bars@.len()
                        && histories@[h].bars@[start[h] as int].timestamp_ns == timestamp_ns
                },
            forall|j: int|
                i <= j < order@.len() ==> cursors@[(#[trigger] order@[j]) as int]
                    == start[order@[j] as int],
            forall|j: int|
                0 <= j < i && start[(#[trigger] order@[j]) as int]
                    < histories@[order@[j] as int].bars@.len()
                    && histories@[order@[j] as int].bars@[start[order@[j] as int] as int].timestamp_ns
                    == timestamp_ns ==> cursors@[order@[j] as int] == start[order@[j] as int] + 1
                    && super::quotes(batch@).contains(
                    Quote {
                        instrument: histories@[order@[j] as int].instrument@,
                        bar: histories@[order@[j] as int].bars@[start[order@[j] as int] as int],
                    },
                ),
            super::orderly(super::quotes(batch@), timestamp_ns),
            forall|b: int|
                0 <= b < batch@.len() ==> exists|h: int|
                    0 <= h < histories@.len() && (#[trigger] histories@[h]).instrument@
                        == (#[trigger] super::quotes(batch@)[b]).instrument && holds(
                        histories@[h],
                        super::quotes(batch@)[b].bar,
                    ),
            forall|b: int, j: int|
                0 <= b < batch@.len() && i <= j < order@.len() ==> text::before(
                    (#[trigger] super::quotes(batch@)[b]).instrument,
                    histories@[(#[trigger] order@[j]) as int].instrument@,
                ),
            sum(cursors@) == sum(start) + batch@.len(),
        decreases order@.len() - i,
    {
        let h: usize = order[i];
        let history: &'a InstrumentHistory = &histories[h];
        let at: usize = cursors[h];
        let ghost before = batch@;
        assert(at == start[h as int]);
        if at < history.bars.len() && history.bars[at].timestamp_ns == timestamp_ns {
            let value = TimestampBar {
                instrument: history.instrument.as_str(),
                bar: &history.bars[at],
            };
            batch.push(value);
            let ghost previous = cursors@;
            cursors.set(h, at + 1);
            proof {
                lemma_sum_update(previous, h as int, (at + 1) as usize);
                let was = super::quotes(before);
                let now = super::quotes(batch@);
                let quote = value.quote();
                assert(now =~= was.push(quote));
                assert(now[was.len() as int] == quote);
                assert(histories@[h as int].bars@.contains(quote.bar));
                assert forall|b: int| 0 <= b < batch@.len() implies exists|g: int|
                    0 <= g < histories@.len() && (#[trigger] histories@[g]).instrument@
                        == (#[trigger] now[b]).instrument && holds(histories@[g], now[b].bar) by {
                    if b < was.len() {
                        assert(now[b] == was[b]);
                    } else {
                        assert(histories@[h as int].instrument@ == now[b].instrument);
                    }
                }
                assert forall|b: int, c: int| 0 <= b < c < now.len() implies text::before(
                    (#[trigger] now[b]).instrument,
                    (#[trigger] now[c]).instrument,
                ) by {
                    assert(now[b] == was[b]);
                    if c < was.len() {
                        assert(now[c] == was[c]);
                    } else {
                        assert(order@[i as int] == h);
                    }
                }
                assert forall|b: int| 0 <= b < now.len() implies (
                #[trigger] now[b]).bar.timestamp_ns == timestamp_ns by {
                    if b < was.len() {
                        assert(now[b] == was[b]);
                    }
                }
                assert forall|b: int, j: int|
                    0 <= b < batch@.len() && i + 1 <= j < order@.len() implies text::before(
                    (#[trigger] now[b]).instrument,
                    histories@[(#[trigger] order@[j]) as int].instrument@,
                ) by {
                    if b < was.len() {
                        assert(now[b] == was[b]);
                    } else {
                        assert(order@[i as int] == h);
                    }
                }
                assert forall|j: int| i + 1 <= j < order@.len() implies cursors@[(
                #[trigger] order@[j]) as int] == start[order@[j] as int] by {
                    lemma_order_distinct(order@, histories@, i as int, j);
                }
                assert forall|j: int|
                    0 <= j < i + 1 && start[(#[trigger] order@[j]) as int]
                        < histories@[order@[j] as int].bars@.len()
                        && histories@[order@[j] as int].bars@[start[order@[j] as int] as int].timestamp_ns
                        == timestamp_ns implies cursors@[order@[j] as int] == start[order@[j] as int]
                    + 1 && now.contains(
                    Quote {
                        instrument: histories@[order@[j] as int].instrument@,
                        bar: histories@[order@[j] as int].bars@[start[order@[j] as int] as int],
                    },
                ) by {
                    let wanted = Quote {
                        instrument: histories@[order@[j] as int].instrument@,
                        bar: histories@[order@[j] as int].bars@[start[order@[j] as int] as int],
                    };
                    if j < i {
                        lemma_order_distinct(order@, histories@, j, i as int);
                        assert(was.contains(wanted));
                        let b = choose|b: int| 0 <= b < was.len() && was[b] == wanted;
                        assert(now[b] == wanted);
                    } else {
                        assert(now[was.len() as int] == wanted);
                    }
                }
            }
        }
        i = i + 1;
    }
    proof {
        let found = super::quotes(batch@);
        assert forall|h: int| 0 <= h < histories@.len() implies {
            &&& start[h] < histories@[h].bars@.len()
                && histories@[h].bars@[start[h] as int].timestamp_ns == timestamp_ns
                ==> #[trigger] cursors@[h] == start[h] + 1 && found.contains(
                Quote {
                    instrument: histories@[h].instrument@,
                    bar: histories@[h].bars@[start[h] as int],
                },
            )
        } by {
            assert(h < total);
            assert(order@.contains(h as usize));
            let j = choose|j: int| 0 <= j < order@.len() && order@[j] == h as usize;
            assert(order@[j] as int == h);
        }
        assert forall|h: int, k: int|
            0 <= h < histories@.len() && 0 <= k < histories@[h].bars@.len() && (
            #[trigger] histories@[h].bars@[k]).timestamp_ns == timestamp_ns implies found.contains(
            Quote { instrument: histories@[h].instrument@, bar: histories@[h].bars@[k] },
        ) by {
            assert(k >= start[h]);
            if k > start[h] {
                assert(histories@[h].bars@[start[h] as int].timestamp_ns
                    < histories@[h].bars@[k].timestamp_ns);
            }
            assert(k == start[h]);
            assert(cursors@[h] == start[h] + 1);
        }
        let g = choose|g: int|
            0 <= g < histories@.len() && (#[trigger] start[g]) < histories@[g].bars@.len()
                && histories@[g].bars@[start[g] as int].timestamp_ns == timestamp_ns;
        assert(cursors@[g] == start[g] + 1);
        assert(found.len() == batch@.len());
        assert forall|h: int, k: int|
            0 <= h < histories@.len() && 0 <= k < cursors@[h] implies (
        #[trigger] histories@[h].bars@[k]).timestamp_ns <= timestamp_ns by {
            if k < start[h] {
            } else {
                assert(k == start[h]);
            }
        }
        assert forall|h: int, k: int|
            0 <= h < histories@.len() && cursors@[h] <= k < histories@[h].bars@.len() implies (
        #[trigger] histories@[h].bars@[k]).timestamp_ns > timestamp_ns by {
            let first = histories@[h].bars@[start[h] as int];
            if k > start[h] {
                assert(first.timestamp_ns < histories@[h].bars@[k].timestamp_ns);
            } else {
                assert(k == start[h]);
            }
        }
    }
    batch
}

proof fn lemma_order_distinct(
    order: Seq<usize>,
    histories: Seq<InstrumentHistory>,
    i: int,
    j: int,
)
    requires
        by_name(order, histories, histories.len() as int),
        0 <= i < j < order.len(),
    ensures
        order[i] != order[j],
{
    text::lemma_before_irreflexive(histories[order[i] as int].instrument@);
}

/// The sum of cursors.
pub open spec fn sum(cursors: Seq<usize>) -> int
    decreases cursors.len(),
{
    if cursors.len() == 0 {
        0
    } else {
        sum(cursors.drop_last()) + cursors.last()
    }
}

pub proof fn lemma_sum_update(cursors: Seq<usize>, at: int, value: usize)
    requires
        0 <= at < cursors.len(),
    ensures
        sum(cursors.update(at, value)) == sum(cursors) - cursors[at] + value,
    decreases cursors.len(),
{
    let changed = cursors.update(at, value);
    if at == cursors.len() - 1 {
        assert(changed.drop_last() =~= cursors.drop_last());
    } else {
        assert(changed.drop_last() =~= cursors.drop_last().update(at, value));
        lemma_sum_update(cursors.drop_last(), at, value);
    }
}

/// Cursors never count more bars than there are.
pub proof fn lemma_sum_bounded(histories: Seq<InstrumentHistory>, cursors: Seq<usize>)
    requires
        cursors.len() == histories.len(),
        forall|h: int|
            0 <= h < histories.len() ==> (#[trigger] cursors[h]) <= histories[h].bars@.len(),
    ensures
        0 <= sum(cursors) <= total_bars(histories),
        (forall|h: int|
            0 <= h < histories.len() ==> #[trigger] cursors[h] == histories[h].bars@.len())
            ==> sum(cursors) == total_bars(histories),
    decreases histories.len(),
{
    if histories.len() > 0 {
        let fewer = histories.drop_last();
        let rest = cursors.drop_last();
        assert forall|h: int| 0 <= h < fewer.len() implies (#[trigger] rest[h])
            <= fewer[h].bars@.len() by {
            assert(rest[h] == cursors[h]);
        }
        lemma_sum_bounded(fewer, rest);
        assert(cursors[cursors.len() - 1] <= histories[histories.len() - 1].bars@.len());
        if forall|h: int|
            0 <= h < histories.len() ==> #[trigger] cursors[h] == histories[h].bars@.len() {
            assert forall|h: int| 0 <= h < fewer.len() implies #[trigger] rest[h]
                == fewer[h].bars@.len() by {
                assert(rest[h] == cursors[h]);
            }
        }
    }
}

} // verus!
