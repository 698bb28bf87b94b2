//! What the remote account is answered with: which fills, in which order, and what
//! its positions are worth.

use crate::arrange;
use crate::averages::is_held;
use crate::binary64::Binary64;
use crate::calendar;
use crate::live::model;
use crate::live::protocol;
use crate::live::protocol::{
    AccountHistory, AccountHistoryQuery, FillDirection, HistoricalFill, HistoryCursor, HistoryWindow, Position, Snapshot,
    TargetPosition, TradeFill,
};
use crate::renderings;
use crate::rounding;
use crate::rounding::one;
use crate::text;
use vstd::arithmetic::power::*;
use vstd::prelude::*;

verus! {

/// Whether a fill lies within the bounds that were asked for, both inclusive, and was
/// there when the first page was made.
pub open spec fn is_wanted(fill: HistoricalFill, snapshot: Snapshot) -> bool {
    let at = fill.created_at_ns;
    &&& snapshot.filter_start_at_ns is None || snapshot.filter_start_at_ns->Some_0 <= at
    &&& snapshot.filter_end_at_ns is None || at <= snapshot.filter_end_at_ns->Some_0
    &&& snapshot.coverage_end_at_ns is None || at <= snapshot.coverage_end_at_ns->Some_0
}

/// The pages hold the fills that are wanted, all of them and no others.
pub proof fn law_pages_hold_what_is_wanted(
    fills: Seq<HistoricalFill>,
    snapshot: Snapshot,
    fill: HistoricalFill,
)
    ensures
        protocol::remaining(fills, snapshot, None).contains(fill) <==> fills.contains(fill)
            && is_wanted(fill, snapshot),
{
    broadcast use vstd::seq_lib::group_to_multiset_ensures;

    let kept = protocol::admitted(fills, snapshot);
    arrange::law_arranged(kept);
    lemma_admitted(fills, snapshot, fill);
    let sorted = arrange::arranged(kept);
    assert(sorted.contains(fill) <==> sorted.to_multiset().contains(fill));
    assert(kept.contains(fill) <==> kept.to_multiset().contains(fill));
}

proof fn lemma_admitted(fills: Seq<HistoricalFill>, snapshot: Snapshot, fill: HistoricalFill)
    ensures
        protocol::admitted(fills, snapshot).contains(fill) <==> fills.contains(fill) && is_wanted(
            fill,
            snapshot,
        ),
    decreases fills.len(),
{
    if fills.len() > 0 {
        let fewer = fills.drop_last();
        lemma_admitted(fewer, snapshot, fill);
        let kept = protocol::admitted(fewer, snapshot);
        let all = protocol::admitted(fills, snapshot);
        if fills.contains(fill) && fill != fills.last() {
            let i = choose|i: int| 0 <= i < fills.len() && fills[i] == fill;
            assert(fewer[i] == fill);
        }
        if fewer.contains(fill) {
            let i = choose|i: int| 0 <= i < fewer.len() && fewer[i] == fill;
            assert(fills[i] == fill);
        }
        if kept.contains(fill) {
            let i = choose|i: int| 0 <= i < kept.len() && kept[i] == fill;
            assert(all[i] == fill);
        }
        if all.contains(fill) {
            let i = choose|i: int| 0 <= i < all.len() && all[i] == fill;
            if i < kept.len() {
                assert(kept[i] == fill);
            }
        }
        if is_wanted(fills.last(), snapshot) {
            assert(all[all.len() - 1] == fills.last());
        }
        assert(fills[fills.len() - 1] == fills.last());
    }
}

/// The newest fill comes first on the pages, and of one time the one with the greatest
/// identifier.
pub proof fn law_newer_fills_come_first(
    fills: Seq<HistoricalFill>,
    snapshot: Snapshot,
    cursor: Option<HistoryCursor>,
    i: int,
    j: int,
)
    requires
        0 <= i < j < protocol::remaining(fills, snapshot, cursor).len(),
    ensures
        ({
            let a = protocol::remaining(fills, snapshot, cursor)[i];
            let b = protocol::remaining(fills, snapshot, cursor)[j];
            b.created_at_ns < a.created_at_ns || b.created_at_ns == a.created_at_ns
                && !text::before(a.trade_id@, b.trade_id@)
        }),
{
    protocol::law_pages_stand_newest_first(fills, snapshot, cursor);
    let rest = protocol::remaining(fills, snapshot, cursor);
    assert(!arrange::Ranked::ranks_before(rest[j], rest[i]));
}

/// A page that a cursor asks for holds only fills that are older than it.
pub proof fn law_cursors_lead_to_older_fills(
    fills: Seq<HistoricalFill>,
    snapshot: Snapshot,
    cursor: HistoryCursor,
    i: int,
)
    requires
        0 <= i < protocol::remaining(fills, snapshot, Some(cursor)).len(),
    ensures
        ({
            let fill = protocol::remaining(fills, snapshot, Some(cursor))[i];
            fill.created_at_ns < cursor.created_at_ns || fill.created_at_ns == cursor.created_at_ns
                && text::before(fill.trade_id@, cursor.trade_id@)
        }),
{
    let sorted = arrange::arranged(protocol::admitted(fills, snapshot));
    lemma_older(sorted, cursor.created_at_ns, cursor.trade_id@, i);
}

proof fn lemma_older(fills: Seq<HistoricalFill>, created_at_ns: u64, trade_id: Seq<char>, i: int)
    requires
        0 <= i < protocol::all_older(fills, created_at_ns, trade_id).len(),
    ensures
        ({
            let fill = protocol::all_older(fills, created_at_ns, trade_id)[i];
            fill.created_at_ns < created_at_ns || fill.created_at_ns == created_at_ns
                && text::before(fill.trade_id@, trade_id)
        }),
    decreases fills.len(),
{
    if fills.len() > 0 {
        let fewer = fills.drop_last();
        if i < protocol::all_older(fewer, created_at_ns, trade_id).len() {
            lemma_older(fewer, created_at_ns, trade_id, i);
        }
    }
}

/// A page holds as many fills as are asked for, at least one and at most five hundred,
/// and a hundred where nothing is asked for; they are the first of what is left.
pub proof fn law_pages_are_as_long_as_asked_for(
    limit: Option<usize>,
    rest: Seq<HistoricalFill>,
    i: int,
)
    ensures
        1 <= protocol::page_size(limit) <= 500,
        limit is None ==> protocol::page_size(limit) == 100,
        limit matches Some(n) ==> (1 <= n <= 500 ==> protocol::page_size(limit) == n) && (n > 500
            ==> protocol::page_size(limit) == 500),
        ({
            let shown = protocol::page(rest, protocol::page_size(limit));
            &&& rest.len() <= protocol::page_size(limit) ==> shown.len() == rest.len()
            &&& rest.len() > protocol::page_size(limit) ==> shown.len() == protocol::page_size(limit)
            &&& 0 <= i < shown.len() ==> shown[i] == rest[i]
        }),
{
}

/// The first page fixes what later pages are taken from: what is known now, and what was
/// asked for. A cursor brings that with it, and nothing that is asked for since counts.
pub proof fn law_cursors_carry_their_bounds(
    window: HistoryWindow,
    cursor: HistoryCursor,
    start: Option<u64>,
    end: Option<u64>,
)
    ensures
        ({
            let first = protocol::snapshot_for(window, None, start, end);
            &&& first.coverage_start_at_ns == window.start_at_ns
            &&& first.coverage_end_at_ns == window.end_at_ns
            &&& first.filter_start_at_ns == start
            &&& first.filter_end_at_ns == end
        }),
        ({
            let later = protocol::snapshot_for(window, Some(cursor), start, end);
            &&& later.coverage_start_at_ns == cursor.coverage_start_at_ns
            &&& later.coverage_end_at_ns == cursor.coverage_end_at_ns
            &&& later.filter_start_at_ns == cursor.filter_start_at_ns
            &&& later.filter_end_at_ns == cursor.filter_end_at_ns
        }),
{
}

/// A record tells what its fill was: the same trade and order, at the same price, for
/// the same amount, value and fee.
pub proof fn law_records_tell_their_fill(
    record: TradeFill,
    fill: HistoricalFill,
    account_id: Seq<char>,
)
    requires
        protocol::is_record(record, fill, account_id),
    ensures
        record.account_id@ == account_id,
        record.trade_id@ == fill.trade_id@,
        record.order_id == Some(fill.order_id),
        record.product_id@ == fill.product_id@,
        record.price == fill.price,
        record.amount == fill.amount,
        record.value == fill.value,
        record.fee == fill.fee,
        fill.direction == FillDirection::Long ==> record.direction@ == "LONG"@,
        fill.direction == FillDirection::Short ==> record.direction@ == "SHORT"@,
        record.created_at@ == protocol::instant_text(fill.created_at_ns),
{
}

/// A request passes without a token where none is asked for; else its header has to hold
/// the token behind the word `Bearer`, and nothing else.
pub proof fn law_requests_need_the_token(header: Option<Seq<char>>, token: Seq<char>)
    ensures
        protocol::authorized(header, None),
        !protocol::authorized(None, Some(token)),
        protocol::authorized(header, Some(token)) ==> (header matches Some(value) && value.len() == 7
            + token.len() && value.skip(7) == token && value.take(7) == "Bearer "@),
        protocol::authorized(Some("Bearer "@ + token), Some(token)),
{
    reveal_strlit("Bearer ");
    if let Some(value) = header {
        if protocol::authorized(header, Some(token)) {
            assert(value.skip(7) =~= token);
            assert(value.take(7) =~= "Bearer "@);
        }
    }
}

/// Whether the products of a target have exact values, step by step: `first` of the
/// contracts and a price, `second` of that and the multiplier.
pub open spec fn are_products(
    target: TargetPosition,
    price: int,
    first: Binary64,
    second: Binary64,
) -> bool {
    &&& target.contracts.finite() && target.multiplier.finite()
    &&& first.finite() && second.finite()
    &&& first.value() * one() == target.contracts.value() * price
    &&& second.value() * one() == first.value() * target.multiplier.value()
}

/// The exposure of a target is its contracts at the latest price, times the multiplier.
pub proof fn law_exposure_is_at_the_latest_price(
    target: TargetPosition,
    first: Binary64,
    second: Binary64,
)
    requires
        target.latest_price.finite(),
        are_products(target, target.latest_price.value(), first, second),
    ensures
        protocol::notional(target).value() == second.value(),
        protocol::notional(target).value() * one() * one() == target.contracts.value()
            * target.latest_price.value() * target.multiplier.value(),
{
    rounding::law_products_are_nearest(target.contracts, target.latest_price, first);
    rounding::law_products_are_nearest(
        target.contracts.product(target.latest_price),
        target.multiplier,
        second,
    );
    lemma_chain(
        second.value(),
        first.value(),
        target.contracts.value() * target.latest_price.value(),
        target.multiplier.value(),
    );
}

proof fn lemma_chain(second: int, first: int, product: int, multiplier: int)
    requires
        first * one() == product,
        second * one() == first * multiplier,
    ensures
        second * one() * one() == product * multiplier,
{
    let o = one();
    assert(second * o * o == product * multiplier) by (nonlinear_arith)
        requires
            first * o == product,
            second * o == first * multiplier,
    ;
}

/// The profit of a target is what the price has gained since the entry, for its
/// contracts, times the multiplier: a long one gains where the price has risen, a
/// short one where it has fallen.
pub proof fn law_profit_is_since_the_entry(
    target: TargetPosition,
    first: Binary64,
    second: Binary64,
)
    requires
        target.latest_price.finite(),
        target.entry_price.finite(),
        is_held(target.latest_price.value() - target.entry_price.value()),
        are_products(
            target,
            target.latest_price.value() - target.entry_price.value(),
            first,
            second,
        ),
    ensures
        protocol::profit(target).value() == second.value(),
        protocol::profit(target).value() * one() * one() == target.contracts.value() * (
        target.latest_price.value() - target.entry_price.value()) * target.multiplier.value(),
{
    let gained = target.latest_price.value() - target.entry_price.value();
    let d = choose|d: Binary64| #[trigger] d.value() == gained && d.finite();
    rounding::law_differences_are_nearest(target.latest_price, target.entry_price, d);
    let moved = target.latest_price.difference(target.entry_price);
    let c = target.contracts.value();
    assert(c * gained == gained * c) by (nonlinear_arith);
    rounding::law_products_are_nearest(moved, target.contracts, first);
    rounding::law_products_are_nearest(
        moved.product(target.contracts),
        target.multiplier,
        second,
    );
    lemma_chain(second.value(), first.value(), c * gained, target.multiplier.value());
}

/// A position tells what its target is: its contracts, the price of its entry and the
/// latest price. It is worth its profit, not its exposure.
pub proof fn law_positions_tell_their_target(
    position: Position,
    target: TargetPosition,
    account_id: Seq<char>,
)
    requires
        protocol::shows(position, target, account_id),
    ensures
        position.account_id@ == account_id,
        position.amount == target.contracts,
        position.position_price == target.entry_price,
        position.closable_price == target.latest_price,
        position.current_price == target.latest_price,
        position.notional == protocol::notional(target),
        position.notional_value == protocol::notional(target),
        position.valuation == protocol::profit(target),
        position.floating_profit == protocol::profit(target),
        position.updated_at == target.updated_at_ms,
        position.margin is None,
{
}

/// What is published of a model's target is the target: its prices, and as many contracts.
pub proof fn law_published_targets_are_the_models(
    published: TargetPosition,
    target: model::TargetPosition,
    contract: Seq<char>,
)
    requires
        protocol::is_published(published, target, contract),
    ensures
        published.symbol@ == target.symbol@,
        published.target_instrument_id@ == contract,
        published.exchange_id@ == target.exchange_id@,
        published.entry_price == target.entry_price,
        published.latest_price == target.latest_price,
        published.multiplier == target.multiplier,
        published.updated_at_ms == target.updated_at_ms,
        -0x20_0000_0000_0000 <= target.contracts <= 0x20_0000_0000_0000
            ==> published.contracts.value() == target.contracts * one(),
{
    if -0x20_0000_0000_0000 <= target.contracts <= 0x20_0000_0000_0000 {
        rounding::law_integers_are_exact(target.contracts as int);
    }
}

/// The positions that are shown are those of the targets whose numbers are finite, all
/// of them and in order.
pub proof fn law_finite_targets_are_shown(targets: Seq<TargetPosition>)
    ensures
        protocol::shown(targets) == targets.filter(
            |target: TargetPosition|
                target.contracts.finite() && target.entry_price.finite()
                    && target.latest_price.finite() && target.multiplier.finite()
                    && protocol::notional(target).finite() && protocol::profit(target).finite(),
        ),
    decreases targets.len(),
{
    reveal(Seq::filter);
    if targets.len() > 0 {
        law_finite_targets_are_shown(targets.drop_last());
    }
}

/// An instant is written as its day and its time of day in UTC, with nine digits for the
/// nanoseconds.
pub proof fn law_instants_read_back(timestamp_ns: u64)
    ensures
        ({
            let s = protocol::instant_text(timestamp_ns);
            let n = s.len() as int;
            &&& n > 20
            &&& s[n - 1] == 'Z' && s[n - 11] == '.' && s[n - 20] == 'T'
            &&& renderings::reads(s.subrange(n - 10, n - 1)) == timestamp_ns % 1_000_000_000
            &&& renderings::reads(s.subrange(n - 19, n - 17)) * 3_600 + renderings::reads(
                s.subrange(n - 16, n - 14),
            ) * 60 + renderings::reads(s.subrange(n - 13, n - 11)) == timestamp_ns / 1_000_000_000
                % 86_400
        }),
{
    let time = calendar::time_of_day(timestamp_ns);
    renderings::law_clocks_show_the_time_of_day(timestamp_ns);
    renderings::law_times_read_back(time);
    let nanos = (timestamp_ns % 1_000_000_000) as nat;
    renderings::law_padded_numerals_read_back(nanos, 9);
    reveal(pow);
    reveal_with_fuel(pow, 10);
    assert(pow(10, 9) == 1_000_000_000);
    reveal_strlit("T");
    reveal_strlit(".");
    reveal_strlit("Z");
    reveal_strlit("-");
    let s = protocol::instant_text(timestamp_ns);
    let t = calendar::time_text(time);
    let n = s.len() as int;
    assert(s.subrange(n - 10, n - 1) =~= text::padded(nanos, 9));
    assert(s.subrange(n - 19, n - 17) =~= t.subrange(0, 2));
    assert(s.subrange(n - 16, n - 14) =~= t.subrange(3, 5));
    assert(s.subrange(n - 13, n - 11) =~= t.subrange(6, 8));
}

/// A page is given only where the start that is asked for lies no later than the end, and
/// it holds no more records than asked for.
pub proof fn law_pages_answer_their_query(
    history: AccountHistory,
    account_id: Seq<char>,
    fills: Seq<HistoricalFill>,
    window: HistoryWindow,
    query: AccountHistoryQuery,
)
    requires
        protocol::is_answer(Ok(history), account_id, fills, window, query),
    ensures
        protocol::bound(query.start_at) is Some,
        protocol::bound(query.end_at) is Some,
        protocol::bound(query.start_at)->Some_0 is Some && protocol::bound(
            query.end_at,
        )->Some_0 is Some ==> protocol::bound(query.start_at)->Some_0->Some_0 <= protocol::bound(
            query.end_at,
        )->Some_0->Some_0,
        history.account_id@ == account_id,
        history.records@.len() <= 500,
        query.limit matches Some(limit) ==> history.records@.len() <= limit || limit == 0,
        history.next_cursor is None ==> history.records@.len() == protocol::remaining(
            fills,
            protocol::snapshot_for(
                window,
                query.cursor,
                protocol::bound(query.start_at)->Some_0,
                protocol::bound(query.end_at)->Some_0,
            ),
            query.cursor,
        ).len(),
{
}

} // verus!
