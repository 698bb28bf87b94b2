//! A whole replay.

use super::daily;
use super::daily::DailyReturn;
use super::performance;
use super::performance::FixedCapitalPerformance;
use super::replay;
use super::replay::{ActiveExposure, Book, PendingExposure, ReplayState};
use super::timeline;
use super::{
    CensoredExposure, ComponentTrade, ExposureOrder, FixedCapitalConfig, FixedCapitalContext,
    FixedCapitalError, FixedCapitalStrategy, HistoryBar, InstrumentHistory, Problem, Quote,
    TimestampBar,
};
use crate::arrange;
use crate::arrange::Ranked;
use crate::calendar::TradingDay;
use crate::ordered;
use crate::ordered::TextSet;
use crate::text;
use crate::text::Comparison;
use vstd::prelude::*;

verus! {

#[derive(Clone, Debug, PartialEq, Eq)]
pub struct FixedCapitalResult {
    pub bars: usize,
    pub data_size_bytes: u64,
    pub trades: Vec<ComponentTrade>,
    pub censored: Vec<CensoredExposure>,
    pub component_order: Vec<String>,
    pub daily_returns: Vec<DailyReturn>,
    pub performance: FixedCapitalPerformance,
}

/// The components that are configured, if any are.
pub open spec fn listed(configured: Option<&[String]>) -> Option<Seq<String>> {
    match configured {
        Some(components) => Some(components@),
        None => None,
    }
}

/// The instruments of histories.
pub open spec fn known(histories: Seq<InstrumentHistory>) -> Set<Seq<char>> {
    Set::new(
        |name: Seq<char>|
            exists|h: int|
                0 <= h < histories.len() && (#[trigger] histories[h]).instrument@ == name,
    )
}

/// What is wrong with an evaluation calendar.
pub open spec fn days_problem(days: Seq<TradingDay>) -> Option<Problem> {
    if days.len() == 0 {
        Some(Problem::InvalidConfig("evaluation_days must not be empty"@))
    } else if !daily::increasing_days(days) {
        Some(Problem::InvalidConfig("evaluation_days must be unique and increasing"@))
    } else {
        None
    }
}

/// What is wrong with the first history that is not as it should be.
pub open spec fn histories_problem(histories: Seq<InstrumentHistory>) -> Option<Problem>
    decreases histories.len(),
{
    if histories.len() == 0 {
        None
    } else {
        match histories_problem(histories.drop_last()) {
            Some(problem) => Some(problem),
            None => {
                let last = histories.last();
                if last.instrument@.len() == 0 || known(histories.drop_last()).contains(
                    last.instrument@,
                ) {
                    Some(Problem::InvalidConfig("instrument ids must be non-empty and unique"@))
                } else if !timeline::increasing_bars(last.bars@) {
                    Some(Problem::NonIncreasingBars(last.instrument@))
                } else {
                    None
                }
            },
        }
    }
}

/// What is wrong with the inputs of a replay.
pub open spec fn inputs_problem(
    days: Seq<TradingDay>,
    histories: Seq<InstrumentHistory>,
) -> Option<Problem> {
    match days_problem(days) {
        Some(problem) => Some(problem),
        None => if histories.len() == 0 {
            Some(Problem::InvalidConfig("at least one instrument is required"@))
        } else {
            histories_problem(histories)
        },
    }
}

/// Whether texts are non-empty and each occurs once.
pub open spec fn proper_names(names: Seq<Seq<char>>) -> bool {
    &&& forall|i: int| 0 <= i < names.len() ==> (#[trigger] names[i]).len() > 0
    &&& forall|i: int, j: int| 0 <= i < j < names.len() ==> names[i] != names[j]
}

/// What is wrong with a configuration.
pub open spec fn config_problem(config: FixedCapitalConfig) -> Option<Problem> {
    if config.instruments@.len() == 0 {
        Some(Problem::InvalidConfig("at least one instrument is required"@))
    } else if !proper_names(
        config.instruments@.map_values(|instrument: super::FixedCapitalInstrument| instrument.id@),
    ) {
        Some(Problem::InvalidConfig("instrument ids must be non-empty and unique"@))
    } else if config.components@.len() == 0 {
        Some(Problem::InvalidConfig("components must not be empty"@))
    } else if !proper_names(config.components@.map_values(|component: String| component@)) {
        Some(Problem::InvalidConfig("components must be non-empty and unique"@))
    } else {
        days_problem(config.evaluation_days@)
    }
}

/// An exposure that was submitted but never entered.
pub open spec fn never_entered(pending: PendingExposure) -> CensoredExposure {
    CensoredExposure {
        id: pending.order.id,
        component: pending.order.component,
        instrument: pending.order.instrument,
        signal_timestamp_ns: pending.signal_timestamp_ns,
        entry_timestamp_ns: None,
    }
}

/// An exposure that was entered but never completed.
pub open spec fn never_completed(active: ActiveExposure) -> CensoredExposure {
    CensoredExposure {
        id: active.pending.order.id,
        component: active.pending.order.component,
        instrument: active.pending.order.instrument,
        signal_timestamp_ns: active.pending.signal_timestamp_ns,
        entry_timestamp_ns: Some(active.entry_timestamp_ns),
    }
}

/// The exposures that a book leaves unfinished, in the order of their
/// identifiers.
pub open spec fn censored(book: Book) -> Seq<CensoredExposure> {
    arrange::arranged(
        book.pending.map_values(|pending: PendingExposure| never_entered(pending))
            + book.active.map_values(|active: ActiveExposure| never_completed(active)),
    )
}

/// Whether `times` lists the first times of the bars, each once and in order.
pub open spec fn starts_timeline(times: Seq<u64>, histories: Seq<InstrumentHistory>) -> bool {
    &&& forall|i: int, j: int| 0 <= i < j < times.len() ==> times[i] < times[j]
    &&& forall|t: u64| #[trigger] times.contains(t) ==> timeline::occurs(histories, t)
    &&& forall|t: u64| #[trigger]
        timeline::occurs(histories, t) && times.len() > 0 && t <= times.last() ==> times.contains(t)
}

/// Whether an outcome is what a book amounts to once the bars are used up.
pub open spec fn is_report(
    r: Result<FixedCapitalResult, FixedCapitalError>,
    book: Book,
    days: Seq<TradingDay>,
    configured: Option<Seq<String>>,
    bars: int,
    data_size_bytes: u64,
) -> bool {
    let trades = arrange::arranged(book.trades);
    match r {
        Ok(result) => {
            &&& result.bars == bars
            &&& result.data_size_bytes == data_size_bytes
            &&& result.trades@ == trades
            &&& result.censored@ == censored(book)
            &&& daily::is_component_order(
                Ok(result.component_order),
                configured,
                trades,
                censored(book),
            )
            &&& daily::is_booked(
                Ok(result.daily_returns),
                days,
                result.component_order@,
                trades,
            )
            &&& result.performance == performance::performance(
                performance::portfolio_returns(result.daily_returns@),
            )
        },
        Err(error) => {
            ||| daily::is_component_order(Err(error), configured, trades, censored(book))
            ||| exists|order: Vec<String>| #[trigger]
                daily::is_component_order(Ok(order), configured, trades, censored(book))
                    && daily::is_booked(Err(error), days, order@, trades)
        },
    }
}

/// Whether an outcome is that of a replay in which the strategy gave `answers`
/// at `times`, having been shown `batches`.
pub open spec fn is_outcome(
    r: Result<FixedCapitalResult, FixedCapitalError>,
    days: Seq<TradingDay>,
    configured: Option<Seq<String>>,
    histories: Seq<InstrumentHistory>,
    data_size_bytes: u64,
    times: Seq<u64>,
    batches: Seq<Seq<Quote>>,
    answers: Seq<Result<Seq<ExposureOrder>, Seq<char>>>,
) -> bool {
    &&& starts_timeline(times, histories)
    &&& batches.len() == times.len()
    &&& answers.len() == times.len()
    &&& forall|i: int|
        0 <= i < times.len() ==> timeline::is_batch(#[trigger] batches[i], histories, times[i])
    &&& match replay::replayed(known(histories), times, batches, answers, times.len() as int) {
        Err(problem) => r matches Err(error) && error@ == problem,
        Ok(book) => timeline::is_timeline(times, histories) && if times.len() == 0 {
            r matches Err(error) && error@ == Problem::EmptyBars
        } else {
            match replay::missed(book.active, times.last() + 1) {
                Some(problem) => r matches Err(error) && error@ == problem,
                None => is_report(
                    r,
                    book,
                    days,
                    configured,
                    timeline::total_bars(histories),
                    data_size_bytes,
                ),
            }
        },
    }
}

/// Whether the strategy is asked at a time: nothing has gone wrong before.
pub open spec fn asked(
    instruments: Set<Seq<char>>,
    times: Seq<u64>,
    batches: Seq<Seq<Quote>>,
    answers: Seq<Result<Seq<ExposureOrder>, Seq<char>>>,
    i: int,
) -> bool {
    replay::replayed(instruments, times, batches, answers, i) matches Ok(book)
        && replay::before_answer(book, times[i], batches[i]) is Ok
}

/// Whether a strategy went from one state to the next at a time: it was shown the
/// batch of the time and gave the answer of the time, or was not asked.
pub open spec fn is_answered<S: FixedCapitalStrategy>(
    instruments: Set<Seq<char>>,
    times: Seq<u64>,
    batches: Seq<Seq<Quote>>,
    answers: Seq<Result<Seq<ExposureOrder>, Seq<char>>>,
    states: Seq<S>,
    i: int,
) -> bool {
    if asked(instruments, times, batches, answers, i) {
        S::answers(states[i], times[i], batches[i], states[i + 1], answers[i])
    } else {
        states[i + 1] == states[i]
    }
}

/// Whether a strategy was asked once at every time at which it is asked, in
/// order, was shown the batch of that time, and gave the answer of that time.
/// `states` are what the strategy was before each time and after the last.
pub open spec fn is_dialogue<S: FixedCapitalStrategy>(
    before: S,
    after: S,
    instruments: Set<Seq<char>>,
    times: Seq<u64>,
    batches: Seq<Seq<Quote>>,
    answers: Seq<Result<Seq<ExposureOrder>, Seq<char>>>,
    states: Seq<S>,
) -> bool {
    &&& states.len() == times.len() + 1
    &&& states[0] == before
    &&& states.last() == after
    &&& forall|i: int|
        0 <= i < times.len() ==> #[trigger] is_answered(
            instruments,
            times,
            batches,
            answers,
            states,
            i,
        )
}

/// Whether an outcome is that of a replay of a strategy.
pub open spec fn is_run<S: FixedCapitalStrategy>(
    r: Result<FixedCapitalResult, FixedCapitalError>,
    before: S,
    after: S,
    days: Seq<TradingDay>,
    configured: Option<Seq<String>>,
    histories: Seq<InstrumentHistory>,
    data_size_bytes: u64,
    times: Seq<u64>,
    batches: Seq<Seq<Quote>>,
    answers: Seq<Result<Seq<ExposureOrder>, Seq<char>>>,
    states: Seq<S>,
) -> bool {
    &&& is_outcome(
        r,
        days,
        configured,
        histories,
        data_size_bytes,
        times,
        batches,
        answers,
    )
    &&& is_dialogue(before, after, known(histories), times, batches, answers, states)
}

impl Ranked for ComponentTrade {
    /// By component, instrument, entry and identifier.
    open spec fn ranks_before(self, other: Self) -> bool {
        if self.component@ != other.component@ {
            text::before(self.component@, other.component@)
        } else if self.instrument@ != other.instrument@ {
            text::before(self.instrument@, other.instrument@)
        } else if self.entry_timestamp_ns != other.entry_timestamp_ns {
            self.entry_timestamp_ns < other.entry_timestamp_ns
        } else {
            text::before(self.id@, other.id@)
        }
    }

    proof fn lemma_ranks_asymmetric(a: Self, b: Self) {
        if text::before(a.component@, b.component@) {
            text::lemma_before_asymmetric(a.component@, b.component@);
        }
        if text::before(a.instrument@, b.instrument@) {
            text::lemma_before_asymmetric(a.instrument@, b.instrument@);
        }
        if text::before(a.id@, b.id@) {
            text::lemma_before_asymmetric(a.id@, b.id@);
        }
    }

    proof fn lemma_ranks_transitive(a: Self, b: Self, c: Self) {
        lemma_text_order(a.component@, b.component@, c.component@);
        lemma_text_order(a.instrument@, b.instrument@, c.instrument@);
        lemma_text_order(a.id@, b.id@, c.id@);
    }

    fn is_before(&self, other: &Self) -> (r: bool) {
        match text::compare(self.component.as_str(), other.component.as_str()) {
            Comparison::Before => {
                proof {
                    text::lemma_before_asymmetric(self.component@, other.component@);
                }
                true
            },
            Comparison::After => {
                proof {
                    text::lemma_before_asymmetric(other.component@, self.component@);
                }
                false
            },
            Comparison::Same => match text::compare(
                self.instrument.as_str(),
                other.instrument.as_str(),
            ) {
                Comparison::Before => {
                    proof {
                        text::lemma_before_asymmetric(self.instrument@, other.instrument@);
                    }
                    true
                },
                Comparison::After => {
                    proof {
                        text::lemma_before_asymmetric(other.instrument@, self.instrument@);
                    }
                    false
                },
                Comparison::Same => if self.entry_timestamp_ns != other.entry_timestamp_ns {
                    self.entry_timestamp_ns < other.entry_timestamp_ns
                } else {
                    text::is_before(self.id.as_str(), other.id.as_str())
                },
            },
        }
    }
}

/// All that orders three texts.
proof fn lemma_text_order(a: Seq<char>, b: Seq<char>, c: Seq<char>)
    ensures
        !text::before(a, b) && !text::before(b, c) ==> !text::before(a, c),
        a != b ==> text::before(a, b) || text::before(b, a),
        b != c ==> text::before(b, c) || text::before(c, b),
        !(text::before(a, b) && text::before(b, a)),
        !(text::before(b, c) && text::before(c, b)),
        !(text::before(a, c) && text::before(c, a)),
        !text::before(a, a),
        text::before(c, b) && text::before(b, a) ==> text::before(c, a),
{
    text::lemma_not_before_transitive(a, b, c);
    text::lemma_before_total(a, b);
    text::lemma_before_total(b, c);
    text::lemma_before_irreflexive(a);
    if text::before(a, b) {
        text::lemma_before_asymmetric(a, b);
    }
    if text::before(b, c) {
        text::lemma_before_asymmetric(b, c);
    }
    if text::before(a, c) {
        text::lemma_before_asymmetric(a, c);
    }
    if text::before(c, b) && text::before(b, a) {
        text::lemma_before_transitive(c, b, a);
    }
}

impl Ranked for CensoredExposure {
    open spec fn ranks_before(self, other: Self) -> bool {
        text::before(self.id@, other.id@)
    }

    proof fn lemma_ranks_asymmetric(a: Self, b: Self) {
        if text::before(a.id@, b.id@) {
            text::lemma_before_asymmetric(a.id@, b.id@);
        }
    }

    proof fn lemma_ranks_transitive(a: Self, b: Self, c: Self) {
        text::lemma_not_before_transitive(a.id@, b.id@, c.id@);
    }

    fn is_before(&self, other: &Self) -> (r: bool) {
        text::is_before(self.id.as_str(), other.id.as_str())
    }
}

pub fn validate_days(days: &[TradingDay]) -> (r: Result<(), FixedCapitalError>)
    ensures
        match days_problem(days@) {
            Some(problem) => r matches Err(error) && error@ == problem,
            None => r is Ok,
        },
{
    if days.len() == 0 {
        return Err(FixedCapitalError::InvalidConfig("evaluation_days must not be empty"));
    }
    let mut i: usize = 1;
    while i < days.len()
        invariant
            1 <= i <= days@.len(),
            forall|a: int, b: int|
                0 <= a < b < i ==> (#[trigger] days@[a]).number() < (#[trigger] days@[b]).number(),
        decreases days@.len() - i,
    {
        if !days[i - 1].is_earlier(&days[i]) {
            assert(!(days@[i - 1].number() < days@[i as int].number()));
            return Err(
                FixedCapitalError::InvalidConfig("evaluation_days must be unique and increasing"),
            );
        }
        assert forall|a: int, b: int| 0 <= a < b < i + 1 implies (#[trigger] days@[a]).number() < (
        #[trigger] days@[b]).number() by {
            if b == i && a < i - 1 {
                assert(days@[a].number() < days@[i - 1].number());
            }
        }
        i = i + 1;
    }
    Ok(())
}

/// Whether bars follow each other in time.
fn bars_increase(bars: &[HistoryBar]) -> (r: bool)
    ensures
        r == timeline::increasing_bars(bars@),
{
    let mut i: usize = 1;
    while i < bars.len()
        invariant
            1 <= i,
            i <= bars@.len() || bars@.len() == 0,
            forall|a: int, b: int|
                0 <= a < b < i && b < bars@.len() ==> (#[trigger] bars@[a]).timestamp_ns < (
                #[trigger] bars@[b]).timestamp_ns,
        decreases bars@.len() - i,
    {
        if bars[i - 1].timestamp_ns >= bars[i].timestamp_ns {
            return false;
        }
        assert forall|a: int, b: int| 0 <= a < b < i + 1 implies (#[trigger] bars@[a]).timestamp_ns
            < (#[trigger] bars@[b]).timestamp_ns by {
            if b == i && a < i - 1 {
                assert(bars@[a].timestamp_ns < bars@[i - 1].timestamp_ns);
            }
        }
        i = i + 1;
    }
    true
}

proof fn lemma_histories_problem(histories: Seq<InstrumentHistory>, count: int)
    requires
        0 <= count <= histories.len(),
        histories_problem(histories.take(count)) is Some,
    ensures
        histories_problem(histories) == histories_problem(histories.take(count)),
    decreases histories.len(),
{
    if count == histories.len() {
        assert(histories.take(count) =~= histories);
    } else {
        assert(histories.drop_last().take(count) =~= histories.take(count));
        lemma_histories_problem(histories.drop_last(), count);
    }
}

/// Checks the inputs of a replay and gives the set of its instruments.
fn validate_history_inputs(
    evaluation_days: &[TradingDay],
    histories: &[InstrumentHistory],
) -> (r: Result<TextSet, FixedCapitalError>)
    ensures
        match inputs_problem(evaluation_days@, histories@) {
            Some(problem) => r matches Err(error) && error@ == problem,
            None => {
                &&& r matches Ok(ids) && ids.well_formed() && ids.members() == known(histories@)
                &&& timeline::replayable(histories@)
            },
        },
{
    match validate_days(evaluation_days) {
        Err(error) => {
            return Err(error);
        },
        Ok(()) => {},
    }
    if histories.len() == 0 {
        return Err(FixedCapitalError::InvalidConfig("at least one instrument is required"));
    }
    let mut ids: TextSet = TextSet::new();
    let mut h: usize = 0;
    assert(histories@.take(0) =~= Seq::<InstrumentHistory>::empty());
    assert(ids.members() =~= known(histories@.take(0)));
    while h < histories.len()
        invariant
            h <= histories@.len(),
            histories@.len() > 0,
            days_problem(evaluation_days@) is None,
            ids.well_formed(),
            ids.members() == known(histories@.take(h as int)),
            histories_problem(histories@.take(h as int)) is None,
            timeline::replayable(histories@.take(h as int)),
        decreases histories@.len() - h,
    {
        let ghost shorter = histories@.take(h as int);
        let ghost longer = histories@.take(h + 1);
        let ghost before = ids;
        assert(longer.drop_last() =~= shorter);
        assert(longer.last() == histories@[h as int]);
        let history: &InstrumentHistory = &histories[h];
        if history.instrument.as_str().is_empty() || !ids.insert(history.instrument.clone()) {
            proof {
                assert(history.instrument@.len() == 0 || before.members().contains(
                    history.instrument@,
                ));
                lemma_histories_problem(histories@, h + 1);
            }
            return Err(
                FixedCapitalError::InvalidConfig("instrument ids must be non-empty and unique"),
            );
        }
        assert(!before.members().contains(history.instrument@));
        if !bars_increase(history.bars.as_slice()) {
            proof {
                lemma_histories_problem(histories@, h + 1);
            }
            return Err(FixedCapitalError::NonIncreasingBars(history.instrument.clone()));
        }
        proof {
            assert(ids.members() =~= known(longer)) by {
                assert forall|name: Seq<char>| ids.members().contains(name) <==> known(
                    longer,
                ).contains(name) by {
                    if known(shorter).contains(name) {
                        let g = choose|g: int|
                            0 <= g < shorter.len() && (#[trigger] shorter[g]).instrument@ == name;
                        assert(longer[g].instrument@ == name);
                    }
                    if known(longer).contains(name) {
                        let g = choose|g: int|
                            0 <= g < longer.len() && (#[trigger] longer[g]).instrument@ == name;
                        if g < h {
                            assert(shorter[g].instrument@ == name);
                        }
                    }
                    assert(longer[h as int].instrument@ == history.instrument@);
                    assert(before.members().contains(name) <==> known(shorter).contains(name));
                }
            }
            assert forall|a: int, b: int| 0 <= a < b < longer.len() implies (
            #[trigger] longer[a]).instrument@ != (#[trigger] longer[b]).instrument@ by {
                assert(longer[a] == shorter[a]);
                if b < h {
                    assert(longer[b] == shorter[b]);
                } else {
                    assert(!known(shorter).contains(history.instrument@));
                    assert(shorter[a].instrument@ != history.instrument@);
                }
            }
            assert forall|a: int| 0 <= a < longer.len() implies timeline::increasing_bars(
                (#[trigger] longer[a]).bars@,
            ) by {
                if a < h {
                    assert(longer[a] == shorter[a]);
                }
            }
        }
        h = h + 1;
    }
    assert(histories@.take(histories@.len() as int) =~= histories@);
    Ok(ids)
}

/// Whether texts are non-empty and each occurs once.
fn names_are_proper(names: &Vec<&str>) -> (r: bool)
    ensures
        r == proper_names(names@.map_values(|name: &str| name@)),
{
    let ghost all = names@.map_values(|name: &str| name@);
    let mut seen: TextSet = TextSet::new();
    let mut i: usize = 0;
    while i < names.len()
        invariant
            i <= names@.len(),
            all == names@.map_values(|name: &str| name@),
            seen.well_formed(),
            proper_names(all.take(i as int)),
            forall|name: Seq<char>| #[trigger]
                seen.has(name) <==> all.take(i as int).contains(name),
        decreases names@.len() - i,
    {
        let name: &str = names[i];
        let ghost before = seen;
        assert(all[i as int] == name@);
        if name.is_empty() || !seen.insert(name.to_owned()) {
            proof {
                if name@.len() > 0 {
                    assert(before.has(name@));
                    let j = choose|j: int|
                        0 <= j < i && all.take(i as int)[j] == name@;
                    assert(all[j] == all[i as int]);
                }
            }
            return false;
        }
        proof {
            let shorter = all.take(i as int);
            let longer = all.take(i + 1);
            assert(longer =~= shorter.push(name@));
            assert(!shorter.contains(name@)) by {
                assert(!before.has(name@));
            }
            assert forall|a: int, b: int| 0 <= a < b < longer.len() implies longer[a]
                != longer[b] by {
                if b == i {
                    assert(shorter[a] == longer[a]);
                } else {
                    assert(shorter[a] != shorter[b]);
                }
            }
            assert forall|other: Seq<char>| #[trigger] seen.has(other) <==> longer.contains(
                other,
            ) by {
                assert(before.has(other) <==> shorter.contains(other));
                if shorter.contains(other) {
                    let j = choose|j: int| 0 <= j < shorter.len() && shorter[j] == other;
                    assert(longer[j] == other);
                }
                if longer.contains(other) {
                    let j = choose|j: int| 0 <= j < longer.len() && longer[j] == other;
                    if j < i {
                        assert(shorter[j] == other);
                    }
                }
                assert(longer[i as int] == name@);
            }
        }
        i = i + 1;
    }
    assert(all.take(all.len() as int) =~= all);
    true
}

/// Checks a configuration.
pub fn validate_config(config: &FixedCapitalConfig) -> (r: Result<(), FixedCapitalError>)
    ensures
        match config_problem(*config) {
            Some(problem) => r matches Err(error) && error@ == problem,
            None => r is Ok,
        },
{
    if config.instruments.len() == 0 {
        return Err(FixedCapitalError::InvalidConfig("at least one instrument is required"));
    }
    let mut names: Vec<&str> = Vec::new();
    let mut i: usize = 0;
    let ghost ids = config.instruments@.map_values(
        |instrument: super::FixedCapitalInstrument| instrument.id@,
    );
    while i < config.instruments.len()
        invariant
            i <= config.instruments@.len(),
            ids == config.instruments@.map_values(
                |instrument: super::FixedCapitalInstrument| instrument.id@,
            ),
            names@.map_values(|name: &str| name@) == ids.take(i as int),
        decreases config.instruments@.len() - i,
    {
        let ghost before = names@;
        names.push(config.instruments[i].id.as_str());
        assert(names@.map_values(|name: &str| name@) =~= before.map_values(
            |name: &str| name@,
        ).push(ids[i as int]));
        assert(ids.take(i + 1) =~= ids.take(i as int).push(ids[i as int]));
        i = i + 1;
    }
    assert(ids.take(ids.len() as int) =~= ids);
    if !names_are_proper(&names) {
        return Err(
            FixedCapitalError::InvalidConfig("instrument ids must be non-empty and unique"),
        );
    }
    match validate_components(config.components.as_slice()) {
        Err(error) => {
            return Err(error);
        },
        Ok(()) => {},
    }
    validate_days(config.evaluation_days.as_slice())
}

/// Checks a list of components.
fn validate_components(components: &[String]) -> (r: Result<(), FixedCapitalError>)
    ensures
        if components@.len() == 0 {
            r matches Err(error) && error@ == Problem::InvalidConfig(
                "components must not be empty"@,
            )
        } else if !proper_names(components@.map_values(|component: String| component@)) {
            r matches Err(error) && error@ == Problem::InvalidConfig(
                "components must be non-empty and unique"@,
            )
        } else {
            r is Ok
        },
{
    if components.len() == 0 {
        return Err(FixedCapitalError::InvalidConfig("components must not be empty"));
    }
    let ghost all = components@.map_values(|component: String| component@);
    let mut names: Vec<&str> = Vec::new();
    let mut i: usize = 0;
    while i < components.len()
        invariant
            i <= components@.len(),
            all == components@.map_values(|component: String| component@),
            names@.map_values(|name: &str| name@) == all.take(i as int),
        decreases components@.len() - i,
    {
        let ghost before = names@;
        names.push(components[i].as_str());
        assert(names@.map_values(|name: &str| name@) =~= before.map_values(
            |name: &str| name@,
        ).push(all[i as int]));
        assert(all.take(i + 1) =~= all.take(i as int).push(all[i as int]));
        i = i + 1;
    }
    assert(all.take(all.len() as int) =~= all);
    if !names_are_proper(&names) {
        return Err(FixedCapitalError::InvalidConfig("components must be non-empty and unique"));
    }
    Ok(())
}

/// What happens later does not reach back: the book after some times is settled
/// by what stood at those times.
pub proof fn law_causal(
    instruments: Set<Seq<char>>,
    times: Seq<u64>,
    batches: Seq<Seq<Quote>>,
    answers: Seq<Result<Seq<ExposureOrder>, Seq<char>>>,
    other_times: Seq<u64>,
    other_batches: Seq<Seq<Quote>>,
    other_answers: Seq<Result<Seq<ExposureOrder>, Seq<char>>>,
    count: int,
)
    requires
        0 <= count <= times.len(),
        count <= other_times.len(),
        batches.len() == times.len(),
        answers.len() == times.len(),
        other_batches.len() == other_times.len(),
        other_answers.len() == other_times.len(),
        forall|i: int|
            0 <= i < count ==> #[trigger] times[i] == other_times[i] && batches[i]
                == other_batches[i] && answers[i] == other_answers[i],
    ensures
        replay::replayed(instruments, times, batches, answers, count) == replay::replayed(
            instruments,
            other_times,
            other_batches,
            other_answers,
            count,
        ),
    decreases count,
{
    if count > 0 {
        law_causal(
            instruments,
            times,
            batches,
            answers,
            other_times,
            other_batches,
            other_answers,
            count - 1,
        );
        assert(times[count - 1] == other_times[count - 1]);
    }
}

/// The last of some times.
spec fn latest(times: Seq<u64>) -> Option<u64> {
    if times.len() == 0 {
        None
    } else {
        Some(times.last())
    }
}

/// Whether the time of every bar behind the cursors is listed.
spec fn covered(
    times: Seq<u64>,
    histories: Seq<InstrumentHistory>,
    cursors: Seq<usize>,
) -> bool {
    forall|h: int, k: int|
        0 <= h < histories.len() && 0 <= k < cursors[h] ==> times.contains(
            (#[trigger] histories[h].bars@[k]).timestamp_ns,
        )
}

/// One time more.
proof fn lemma_next_time(
    times: Seq<u64>,
    histories: Seq<InstrumentHistory>,
    before: Seq<usize>,
    after: Seq<usize>,
    timestamp_ns: u64,
)
    requires
        timeline::replayable(histories),
        starts_timeline(times, histories),
        covered(times, histories, before),
        timeline::passed(histories, before, latest(times)),
        timeline::passed(histories, after, Some(timestamp_ns)),
        latest(times) matches Some(t) ==> t < timestamp_ns,
        exists|h: int|
            0 <= h < histories.len() && (#[trigger] before[h]) < histories[h].bars@.len()
                && histories[h].bars@[before[h] as int].timestamp_ns == timestamp_ns,
        forall|h: int|
            0 <= h < histories.len() && (#[trigger] before[h]) < histories[h].bars@.len()
                ==> histories[h].bars@[before[h] as int].timestamp_ns >= timestamp_ns,
    ensures
        starts_timeline(times.push(timestamp_ns), histories),
        covered(times.push(timestamp_ns), histories, after),
{
    let longer = times.push(timestamp_ns);
    let g = choose|h: int|
        0 <= h < histories.len() && (#[trigger] before[h]) < histories[h].bars@.len()
            && histories[h].bars@[before[h] as int].timestamp_ns == timestamp_ns;
    assert(timeline::occurs(histories, timestamp_ns)) by {
        assert(histories[g].bars@[before[g] as int].timestamp_ns == timestamp_ns);
    }
    assert(longer[times.len() as int] == timestamp_ns);
    assert forall|t: u64| times.contains(t) implies #[trigger] longer.contains(t) by {
        let i = choose|i: int| 0 <= i < times.len() && times[i] == t;
        assert(longer[i] == t);
    }
    assert forall|h: int, k: int| 0 <= h < histories.len() && 0 <= k < after[h] implies longer.contains(
        (#[trigger] histories[h].bars@[k]).timestamp_ns,
    ) by {
        let bar = histories[h].bars@[k];
        assert(bar.timestamp_ns <= timestamp_ns);
        if k < before[h] {
            assert(times.contains(bar.timestamp_ns));
        } else {
            assert(after[h] <= histories[h].bars@.len());
            assert(before[h] <= k);
            let head = histories[h].bars@[before[h] as int];
            assert(head.timestamp_ns >= timestamp_ns);
            if before[h] < k {
                assert(head.timestamp_ns < bar.timestamp_ns);
            }
        }
    }
    assert forall|t: u64| #[trigger] longer.contains(t) implies timeline::occurs(histories, t) by {
        let i = choose|i: int| 0 <= i < longer.len() && longer[i] == t;
        if i < times.len() {
            assert(times[i] == t);
            assert(times.contains(t));
        }
    }
    assert forall|t: u64| #[trigger] timeline::occurs(histories, t) && t <= longer.last() implies
        longer.contains(t) by {
        let (h, k) = choose|h: int, k: int|
            0 <= h < histories.len() && 0 <= k < histories[h].bars@.len() && (
            #[trigger] histories[h].bars@[k]).timestamp_ns == t;
        let bar = histories[h].bars@[k];
        if k >= after[h] {
            assert(bar.timestamp_ns > timestamp_ns);
        }
    }
    assert forall|i: int, j: int| 0 <= i < j < longer.len() implies longer[i] < longer[j] by {
        if j == times.len() {
            assert(times[i] <= times.last());
        }
    }
}

fn zero_cursors(count: usize) -> (r: Vec<usize>)
    ensures
        r@.len() == count,
        forall|h: int| 0 <= h < count ==> #[trigger] r@[h] == 0,
        timeline::sum(r@) == 0,
{
    let mut cursors: Vec<usize> = Vec::new();
    while cursors.len() < count
        invariant
            cursors@.len() <= count,
            forall|h: int| 0 <= h < cursors@.len() ==> #[trigger] cursors@[h] == 0,
            timeline::sum(cursors@) == 0,
        decreases count - cursors@.len(),
    {
        let ghost before = cursors@;
        cursors.push(0);
        assert(cursors@.drop_last() =~= before);
    }
    cursors
}

/// The exposures that are left unfinished, in the order of their identifiers.
fn censored_exposures(pending: Vec<PendingExposure>, active: Vec<ActiveExposure>) -> (r: Vec<
    CensoredExposure,
>)
    ensures
        r@ == arrange::arranged(
            pending@.map_values(|pending: PendingExposure| never_entered(pending))
                + active@.map_values(|active: ActiveExposure| never_completed(active)),
        ),
{
    let ghost waiting = pending@.map_values(|pending: PendingExposure| never_entered(pending));
    let ghost running = active@.map_values(|active: ActiveExposure| never_completed(active));
    let ghost all_pending = pending@;
    let ghost all_active = active@;
    let mut left: Vec<CensoredExposure> = Vec::new();
    for value in it: pending
        invariant
            it.seq() == all_pending,
            waiting == all_pending.map_values(
                |pending: PendingExposure| never_entered(pending),
            ),
            left@ == waiting.take(it.index()),
    {
        left.push(
            CensoredExposure {
                id: value.order.id,
                component: value.order.component,
                instrument: value.order.instrument,
                signal_timestamp_ns: value.signal_timestamp_ns,
                entry_timestamp_ns: None,
            },
        );
        assert(left@ =~= waiting.take(it.index() + 1));
    }
    assert(left@ =~= waiting + running.take(0));
    for value in it: active
        invariant
            it.seq() == all_active,
            running == all_active.map_values(
                |active: ActiveExposure| never_completed(active),
            ),
            left@ == waiting + running.take(it.index()),
    {
        left.push(
            CensoredExposure {
                id: value.pending.order.id,
                component: value.pending.order.component,
                instrument: value.pending.order.instrument,
                signal_timestamp_ns: value.pending.signal_timestamp_ns,
                entry_timestamp_ns: Some(value.entry_timestamp_ns),
            },
        );
        assert(left@ =~= waiting + running.take(it.index() + 1));
    }
    assert(running.take(running.len() as int) =~= running);
    arrange::arrange(left)
}

/// What was told so far: the times, the bars that were shown, the answers, and
/// what the strategy was before and after each of them.
struct Told<S> {
    times: Seq<u64>,
    batches: Seq<Seq<Quote>>,
    answers: Seq<Result<Seq<ExposureOrder>, Seq<char>>>,
    states: Seq<S>,
}

impl<S> Told<S> {
    spec fn and(
        self,
        timestamp_ns: u64,
        batch: Seq<Quote>,
        given: Result<Seq<ExposureOrder>, Seq<char>>,
        state: S,
    ) -> Self {
        Told {
            times: self.times.push(timestamp_ns),
            batches: self.batches.push(batch),
            answers: self.answers.push(given),
            states: self.states.push(state),
        }
    }
}

/// Whether a book, cursors and a strategy are where the telling has led.
#[verifier::opaque]
spec fn tracks<S: FixedCapitalStrategy>(
    told: Told<S>,
    start: S,
    histories: Seq<InstrumentHistory>,
    cursors: Seq<usize>,
    book: Book,
    strategy: S,
) -> bool {
    &&& timeline::passed(histories, cursors, latest(told.times))
    &&& covered(told.times, histories, cursors)
    &&& starts_timeline(told.times, histories)
    &&& told.batches.len() == told.times.len()
    &&& told.answers.len() == told.times.len()
    &&& forall|i: int|
        0 <= i < told.times.len() ==> timeline::is_batch(
            #[trigger] told.batches[i],
            histories,
            told.times[i],
        )
    &&& replay::replayed(
        known(histories),
        told.times,
        told.batches,
        told.answers,
        told.times.len() as int,
    ) == Ok::<Book, Problem>(book)
    &&& is_dialogue(
        start,
        strategy,
        known(histories),
        told.times,
        told.batches,
        told.answers,
        told.states,
    )
}

/// One question more continues a dialogue.
proof fn lemma_dialogue<S: FixedCapitalStrategy>(
    told: Told<S>,
    start: S,
    strategy: S,
    next: S,
    instruments: Set<Seq<char>>,
    book: Book,
    timestamp_ns: u64,
    batch: Seq<Quote>,
    given: Result<Seq<ExposureOrder>, Seq<char>>,
)
    requires
        is_dialogue(
            start,
            strategy,
            instruments,
            told.times,
            told.batches,
            told.answers,
            told.states,
        ),
        told.batches.len() == told.times.len(),
        told.answers.len() == told.times.len(),
        replay::replayed(
            instruments,
            told.times,
            told.batches,
            told.answers,
            told.times.len() as int,
        ) == Ok::<Book, Problem>(book),
        if replay::before_answer(book, timestamp_ns, batch) is Ok {
            S::answers(strategy, timestamp_ns, batch, next, given)
        } else {
            next == strategy
        },
    ensures
        ({
            let longer = told.and(timestamp_ns, batch, given, next);
            is_dialogue(
                start,
                next,
                instruments,
                longer.times,
                longer.batches,
                longer.answers,
                longer.states,
            )
        }),
{
    let longer = told.and(timestamp_ns, batch, given, next);
    assert forall|i: int| 0 <= i < longer.times.len() implies #[trigger] is_answered(
        instruments,
        longer.times,
        longer.batches,
        longer.answers,
        longer.states,
        i,
    ) by {
        lemma_answered(told, instruments, timestamp_ns, batch, given, next, i);
        if i == told.times.len() {
            assert(told.states[i] == told.states.last());
        } else {
            assert(is_answered(
                instruments,
                told.times,
                told.batches,
                told.answers,
                told.states,
                i,
            ));
        }
    }
}

/// What was answered stays answered.
proof fn lemma_answered<S: FixedCapitalStrategy>(
    told: Told<S>,
    instruments: Set<Seq<char>>,
    timestamp_ns: u64,
    batch: Seq<Quote>,
    given: Result<Seq<ExposureOrder>, Seq<char>>,
    next: S,
    i: int,
)
    requires
        told.batches.len() == told.times.len(),
        told.answers.len() == told.times.len(),
        told.states.len() == told.times.len() + 1,
        0 <= i <= told.times.len(),
    ensures
        ({
            let longer = told.and(timestamp_ns, batch, given, next);
            &&& longer.states[i] == told.states[i]
            &&& replay::replayed(
                instruments,
                longer.times,
                longer.batches,
                longer.answers,
                i,
            ) == replay::replayed(instruments, told.times, told.batches, told.answers, i)
            &&& i < told.times.len() ==> is_answered(
                instruments,
                longer.times,
                longer.batches,
                longer.answers,
                longer.states,
                i,
            ) == is_answered(
                instruments,
                told.times,
                told.batches,
                told.answers,
                told.states,
                i,
            )
        }),
{
    let longer = told.and(timestamp_ns, batch, given, next);
    law_causal(
        instruments,
        told.times,
        told.batches,
        told.answers,
        longer.times,
        longer.batches,
        longer.answers,
        i,
    );
    if i < told.times.len() {
        assert(longer.times[i] == told.times[i]);
        assert(longer.batches[i] == told.batches[i]);
        assert(longer.answers[i] == told.answers[i]);
        assert(longer.states[i + 1] == told.states[i + 1]);
    }
}

proof fn lemma_time_moves_on(
    histories: Seq<InstrumentHistory>,
    cursors: Seq<usize>,
    times: Seq<u64>,
    timestamp_ns: u64,
)
    requires
        timeline::passed(histories, cursors, latest(times)),
        exists|h: int|
            0 <= h < histories.len() && (#[trigger] cursors[h]) < histories[h].bars@.len()
                && histories[h].bars@[cursors[h] as int].timestamp_ns == timestamp_ns,
    ensures
        latest(times) matches Some(t) ==> t < timestamp_ns,
{
    let g = choose|h: int|
        0 <= h < histories.len() && (#[trigger] cursors[h]) < histories[h].bars@.len()
            && histories[h].bars@[cursors[h] as int].timestamp_ns == timestamp_ns;
    let head = histories[g].bars@[cursors[g] as int];
    if times.len() > 0 {
        assert(head.timestamp_ns > times.last());
    }
}

/// One time more is told.
proof fn lemma_told<S: FixedCapitalStrategy>(
    told: Told<S>,
    start: S,
    strategy: S,
    state: S,
    histories: Seq<InstrumentHistory>,
    before: Seq<usize>,
    after: Seq<usize>,
    book: Book,
    timestamp_ns: u64,
    batch: Seq<Quote>,
    given: Result<Seq<ExposureOrder>, Seq<char>>,
)
    requires
        tracks(told, start, histories, before, book, strategy),
        timeline::replayable(histories),
        timeline::passed(histories, after, Some(timestamp_ns)),
        timeline::is_batch(batch, histories, timestamp_ns),
        latest(told.times) matches Some(t) ==> t < timestamp_ns,
        exists|h: int|
            0 <= h < histories.len() && (#[trigger] before[h]) < histories[h].bars@.len()
                && histories[h].bars@[before[h] as int].timestamp_ns == timestamp_ns,
        forall|h: int|
            0 <= h < histories.len() && (#[trigger] before[h]) < histories[h].bars@.len()
                ==> histories[h].bars@[before[h] as int].timestamp_ns >= timestamp_ns,
        if replay::before_answer(book, timestamp_ns, batch) is Ok {
            S::answers(strategy, timestamp_ns, batch, state, given)
        } else {
            state == strategy
        },
    ensures
        match replay::stepped(book, known(histories), timestamp_ns, batch, given) {
            Ok(next) => {
                &&& tracks(
                    told.and(timestamp_ns, batch, given, state),
                    start,
                    histories,
                    after,
                    next,
                    state,
                )
                &&& latest(told.and(timestamp_ns, batch, given, state).times) == Some(
                    timestamp_ns,
                )
            },
            Err(problem) => forall|
                error: FixedCapitalError,
                days: Seq<TradingDay>,
                configured: Option<Seq<String>>,
                data_size_bytes: u64,
            |
                error@ == problem ==> #[trigger] is_run(
                    Err(error),
                    start,
                    state,
                    days,
                    configured,
                    histories,
                    data_size_bytes,
                    told.and(timestamp_ns, batch, given, state).times,
                    told.and(timestamp_ns, batch, given, state).batches,
                    told.and(timestamp_ns, batch, given, state).answers,
                    told.and(timestamp_ns, batch, given, state).states,
                ),
        },
{
    reveal(tracks);
    let next = told.and(timestamp_ns, batch, given, state);
    lemma_dialogue(
        told,
        start,
        strategy,
        state,
        known(histories),
        book,
        timestamp_ns,
        batch,
        given,
    );
    lemma_next_time(told.times, histories, before, after, timestamp_ns);
    lemma_one_more(
        known(histories),
        told.times,
        told.batches,
        told.answers,
        timestamp_ns,
        batch,
        given,
    );
    assert forall|i: int| 0 <= i < next.times.len() implies timeline::is_batch(
        #[trigger] next.batches[i],
        histories,
        next.times[i],
    ) by {
        if i < told.times.len() {
            assert(next.batches[i] == told.batches[i]);
            assert(next.times[i] == told.times[i]);
        }
    }
    match replay::stepped(book, known(histories), timestamp_ns, batch, given) {
        Ok(_) => {},
        Err(problem) => {
            assert forall|
                error: FixedCapitalError,
                days: Seq<TradingDay>,
                configured: Option<Seq<String>>,
                data_size_bytes: u64,
            |
                error@ == problem implies #[trigger] is_run(
                Err(error),
                start,
                state,
                days,
                configured,
                histories,
                data_size_bytes,
                next.times,
                next.batches,
                next.answers,
                next.states,
            ) by {}
        },
    }
}

/// Replays histories: at each time the exposures that end are completed, the
/// strategy is shown the bars of every instrument that has one, and its orders
/// wait for the next open.
pub fn run_fixed_capital_history_inner<S: FixedCapitalStrategy>(
    evaluation_days: &[TradingDay],
    configured_components: Option<&[String]>,
    histories: &[InstrumentHistory],
    data_size_bytes: u64,
    strategy: &mut S,
) -> (r: Result<FixedCapitalResult, FixedCapitalError>)
    requires
        timeline::total_bars(histories@) <= usize::MAX,
    ensures
        match inputs_problem(evaluation_days@, histories@) {
            Some(problem) => {
                &&& r matches Err(error) && error@ == problem
                &&& *final(strategy) == *old(strategy)
            },
            None => exists|
                times: Seq<u64>,
                batches: Seq<Seq<Quote>>,
                answers: Seq<Result<Seq<ExposureOrder>, Seq<char>>>,
                states: Seq<S>,
            | #[trigger]
                is_run(
                    r,
                    *old(strategy),
                    *final(strategy),
                    evaluation_days@,
                    listed(configured_components),
                    histories@,
                    data_size_bytes,
                    times,
                    batches,
                    answers,
                    states,
                ),
        },
{
    let ids: TextSet = validate_history_inputs(evaluation_days, histories)?;
    let ghost configured = listed(configured_components);
    let order: Vec<usize> = timeline::name_order(histories);
    let mut cursors: Vec<usize> = zero_cursors(histories.len());
    let mut state: ReplayState = ReplayState::new(ids);
    let mut bars: usize = 0;
    let mut last_timestamp_ns: Option<u64> = None;
    let ghost start = *strategy;
    let ghost mut told: Told<S> = Told {
        times: Seq::empty(),
        batches: Seq::empty(),
        answers: Seq::empty(),
        states: seq![start],
    };
    proof {
        assert(tracks(told, start, histories@, cursors@, state@, *strategy)) by {
            reveal(tracks);
        }
    }
    loop
        invariant
            timeline::total_bars(histories@) <= usize::MAX,
            inputs_problem(evaluation_days@, histories@) is None,
            timeline::replayable(histories@),
            timeline::by_name(order@, histories@, histories@.len() as int),
            start == *old(strategy),
            tracks(told, start, histories@, cursors@, state@, *strategy),
            timeline::passed(histories@, cursors@, latest(told.times)),
            state.well_formed(),
            state.instruments() == known(histories@),
            bars == timeline::sum(cursors@),
            last_timestamp_ns == latest(told.times),
        ensures
            forall|h: int|
                0 <= h < histories@.len() ==> #[trigger] cursors@[h] == histories@[h].bars@.len(),
        decreases timeline::total_bars(histories@) - timeline::sum(cursors@),
    {
        let timestamp_ns: u64 = match timeline::next_timestamp(histories, cursors.as_slice()) {
            Some(timestamp_ns) => timestamp_ns,
            None => {
                break;
            },
        };
        let ghost before = cursors@;
        let ghost book = state@;
        let ghost waiting = *strategy;
        proof {
            lemma_time_moves_on(histories@, before, told.times, timestamp_ns);
        }
        let batch: Vec<TimestampBar<'_>> = timeline::gather(
            histories,
            &order,
            &mut cursors,
            timestamp_ns,
            Ghost(latest(told.times)),
        );
        let ghost quotes = super::quotes(batch@);
        proof {
            timeline::lemma_sum_bounded(histories@, cursors@);
        }
        last_timestamp_ns = Some(timestamp_ns);
        bars = bars + batch.len();
        let ghost mut given: Result<Seq<ExposureOrder>, Seq<char>> = Err(Seq::empty());
        let stepped: Result<(), FixedCapitalError> = match state.before_callback(
            timestamp_ns,
            batch.as_slice(),
        ) {
            Err(error) => Err(error),
            Ok(()) => {
                let context = FixedCapitalContext { timestamp_ns, bars: batch.as_slice() };
                let reply: Result<Vec<ExposureOrder>, String> = strategy.on_timestamp(context);
                proof {
                    given = replay::answer(reply);
                }
                state.after_callback(timestamp_ns, batch.as_slice(), reply)
            },
        };
        proof {
            lemma_told(
                told,
                start,
                waiting,
                *strategy,
                histories@,
                before,
                cursors@,
                book,
                timestamp_ns,
                quotes,
                given,
            );
        }
        match stepped {
            Err(error) => {
                proof {
                    told = told.and(timestamp_ns, quotes, given, *strategy);
                    assert(is_run(
                        Err(error),
                        start,
                        *strategy,
                        evaluation_days@,
                        listed(configured_components),
                        histories@,
                        data_size_bytes,
                        told.times,
                        told.batches,
                        told.answers,
                        told.states,
                    ));
                }
                return Err(error);
            },
            Ok(()) => {
                proof {
                    told = told.and(timestamp_ns, quotes, given, *strategy);
                }
            },
        }
    }
    let ghost times = told.times;
    let ghost batches = told.batches;
    let ghost answers = told.answers;
    proof {
        reveal(tracks);
        assert forall|t: u64| #[trigger] timeline::occurs(histories@, t) implies times.contains(
            t,
        ) by {
            let (h, k) = choose|h: int, k: int|
                0 <= h < histories@.len() && 0 <= k < histories@[h].bars@.len() && (
                #[trigger] histories@[h].bars@[k]).timestamp_ns == t;
            let bar = histories@[h].bars@[k];
            assert(k < cursors@[h]);
            assert(times.contains(bar.timestamp_ns));
        }
        assert(timeline::is_timeline(times, histories@));
        timeline::lemma_sum_bounded(histories@, cursors@);
    }
    let last: u64 = match last_timestamp_ns {
        Some(last) => last,
        None => {
            let error = FixedCapitalError::EmptyBars;
            assert(is_run(
                Err(error),
                start,
                *strategy,
                evaluation_days@,
                configured,
                histories@,
                data_size_bytes,
                times,
                batches,
                answers,
                told.states,
            ));
            return Err(error);
        },
    };
    match state.reject_schedules_at_or_before(last) {
        Err(error) => {
            assert(is_run(
                Err(error),
                start,
                *strategy,
                evaluation_days@,
                configured,
                histories@,
                data_size_bytes,
                times,
                batches,
                answers,
                told.states,
            ));
            return Err(error);
        },
        Ok(()) => {},
    }
    let ghost book = state@;
    let r = summarize(state, evaluation_days, configured_components, bars, data_size_bytes);
    assert(is_run(
        r,
        start,
        *strategy,
        evaluation_days@,
        configured,
        histories@,
        data_size_bytes,
        times,
        batches,
        answers,
        told.states,
    ));
    r
}

/// What a book amounts to once the bars are used up.
pub fn summarize(
    state: ReplayState,
    evaluation_days: &[TradingDay],
    configured_components: Option<&[String]>,
    bars: usize,
    data_size_bytes: u64,
) -> (r: Result<FixedCapitalResult, FixedCapitalError>)
    requires
        days_problem(evaluation_days@) is None,
    ensures
        is_report(
            r,
            state@,
            evaluation_days@,
            listed(configured_components),
            bars as int,
            data_size_bytes,
        ),
{
    let ghost configured = listed(configured_components);
    let (pending, active, completed): (
        Vec<PendingExposure>,
        Vec<ActiveExposure>,
        Vec<ComponentTrade>,
    ) = state.into_parts();
    let censored: Vec<CensoredExposure> = censored_exposures(pending, active);
    let trades: Vec<ComponentTrade> = arrange::arrange(completed);
    let component_order: Vec<String> = daily::component_order(
        configured_components,
        trades.as_slice(),
        censored.as_slice(),
    )?;
    let ghost order = component_order;
    match daily::build_daily(
        evaluation_days,
        component_order.as_slice(),
        trades.as_slice(),
    ) {
        Err(error) => {
            proof {
                assert(daily::is_component_order(Ok(order), configured, trades@, censored@));
            }
            Err(error)
        },
        Ok(daily_returns) => {
            let performance: FixedCapitalPerformance = performance::evaluate(
                daily_returns.as_slice(),
            );
            Ok(
                FixedCapitalResult {
                    bars,
                    data_size_bytes,
                    trades,
                    censored,
                    component_order,
                    daily_returns,
                    performance,
                },
            )
        },
    }
}

/// The book after one time more is one step on.
proof fn lemma_one_more(
    instruments: Set<Seq<char>>,
    times: Seq<u64>,
    batches: Seq<Seq<Quote>>,
    answers: Seq<Result<Seq<ExposureOrder>, Seq<char>>>,
    timestamp_ns: u64,
    batch: Seq<Quote>,
    given: Result<Seq<ExposureOrder>, Seq<char>>,
)
    requires
        batches.len() == times.len(),
        answers.len() == times.len(),
    ensures
        replay::replayed(
            instruments,
            times.push(timestamp_ns),
            batches.push(batch),
            answers.push(given),
            times.len() as int + 1,
        ) == match replay::replayed(instruments, times, batches, answers, times.len() as int) {
            Err(problem) => Err(problem),
            Ok(book) => replay::stepped(book, instruments, timestamp_ns, batch, given),
        },
{
    law_causal(
        instruments,
        times,
        batches,
        answers,
        times.push(timestamp_ns),
        batches.push(batch),
        answers.push(given),
        times.len() as int,
    );
}

/// Replays histories with the columns of all components that trade.
pub fn run_fixed_capital_history<S: FixedCapitalStrategy>(
    evaluation_days: &[TradingDay],
    histories: &[InstrumentHistory],
    data_size_bytes: u64,
    strategy: &mut S,
) -> (r: Result<FixedCapitalResult, FixedCapitalError>)
    requires
        timeline::total_bars(histories@) <= usize::MAX,
    ensures
        match inputs_problem(evaluation_days@, histories@) {
            Some(problem) => {
                &&& r matches Err(error) && error@ == problem
                &&& *final(strategy) == *old(strategy)
            },
            None => exists|
                times: Seq<u64>,
                batches: Seq<Seq<Quote>>,
                answers: Seq<Result<Seq<ExposureOrder>, Seq<char>>>,
                states: Seq<S>,
            | #[trigger]
                is_run(
                    r,
                    *old(strategy),
                    *final(strategy),
                    evaluation_days@,
                    None,
                    histories@,
                    data_size_bytes,
                    times,
                    batches,
                    answers,
                    states,
                ),
        },
{
    run_fixed_capital_history_inner(evaluation_days, None, histories, data_size_bytes, strategy)
}

} // verus!
