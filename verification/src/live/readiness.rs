//! Which configurations the live runner starts with.

use crate::calendar::TimeOfDay;
use crate::live::config;
use crate::live::config::{InstrumentConfig, LiveConfig};
use crate::text;
use vstd::prelude::*;

verus! {

/// Whether an instrument can be traded: it has names, positive sizes, a session of two
/// hundred and forty bars, and one that ends at three in the afternoon.
pub open spec fn is_tradable(instrument: InstrumentConfig, end: Option<TimeOfDay>) -> bool {
    &&& end matches Some(time) && time.seconds == 15 * 3_600 && time.nanoseconds == 0
    &&& text::trimmed(instrument.symbol@).len() > 0
    &&& text::trimmed(instrument.market_instrument_id@).len() > 0
    &&& text::trimmed(instrument.target_instrument_id@).len() > 0
    &&& instrument.full_weight_contracts.finite() && instrument.full_weight_contracts.value() > 0
    &&& instrument.contract_multiplier.finite() && instrument.contract_multiplier.value() > 0
    &&& instrument.session_bar_count == 240
}

/// Whether all instruments can be traded and none shares a market or a target.
pub open spec fn are_tradable(
    instruments: Seq<InstrumentConfig>,
    ends: Seq<Option<TimeOfDay>>,
) -> bool {
    &&& forall|i: int| 0 <= i < instruments.len() ==> is_tradable(#[trigger] instruments[i], ends[i])
    &&& forall|i: int, j: int|
        0 <= i < j < instruments.len() ==> (#[trigger] instruments[i]).market_instrument_id@ != (
        #[trigger] instruments[j]).market_instrument_id@ && instruments[i].target_instrument_id@
            != instruments[j].target_instrument_id@
}

proof fn lemma_instruments(instruments: Seq<InstrumentConfig>, ends: Seq<Option<TimeOfDay>>)
    requires
        instruments.len() <= ends.len(),
    ensures
        config::instruments_problem(instruments, ends) is None <==> are_tradable(
            instruments,
            ends,
        ),
    decreases instruments.len(),
{
    if instruments.len() > 0 {
        let fewer = instruments.drop_last();
        let n = instruments.len() - 1;
        let last = instruments.last();
        lemma_instruments(fewer, ends);
        assert forall|i: int| 0 <= i < n implies instruments[i] == #[trigger] fewer[i] by {}
        if config::instruments_problem(instruments, ends) is None {
            assert forall|i: int| 0 <= i < instruments.len() implies is_tradable(
                #[trigger] instruments[i],
                ends[i],
            ) by {
                if i < n {
                    assert(is_tradable(fewer[i], ends[i]));
                }
            }
            assert forall|i: int, j: int| 0 <= i < j < instruments.len() implies (
            #[trigger] instruments[i]).market_instrument_id@ != (
            #[trigger] instruments[j]).market_instrument_id@ && instruments[i].target_instrument_id@
                != instruments[j].target_instrument_id@ by {
                assert(fewer[i] == instruments[i]);
                if j < n {
                    assert(fewer[j] == instruments[j]);
                } else {
                    assert(!config::market_taken(fewer, last.market_instrument_id@));
                    assert(!config::target_taken(fewer, last.target_instrument_id@));
                }
            }
        }
        if are_tradable(instruments, ends) {
            assert forall|i: int| 0 <= i < fewer.len() implies is_tradable(
                #[trigger] fewer[i],
                ends[i],
            ) by {
                assert(is_tradable(instruments[i], ends[i]));
            }
            assert(are_tradable(fewer, ends));
            assert(is_tradable(instruments[n], ends[n]));
            assert forall|i: int| 0 <= i < fewer.len() implies (
            #[trigger] fewer[i]).market_instrument_id@ != last.market_instrument_id@
                && fewer[i].target_instrument_id@ != last.target_instrument_id@ by {
                assert(instruments[i].market_instrument_id@ != instruments[n].market_instrument_id@);
            }
        }
    }
}

/// Whether an instrument has a symbol.
pub open spec fn has_symbol(instruments: Seq<InstrumentConfig>, symbol: Seq<char>) -> bool {
    exists|i: int| 0 <= i < instruments.len() && (#[trigger] instruments[i]).symbol@ == symbol
}

/// A configuration is accepted exactly where it names an account and a feed that goes
/// stale, seeds at least five thousand bars, names where to send signals if it sends
/// them, and has the four instruments of the model, each of which can be traded and none
/// of which shares a market or a target.
pub proof fn law_complete_configurations_are_accepted(
    given: LiveConfig,
    ends: Seq<Option<TimeOfDay>>,
)
    requires
        ends.len() == given.instruments@.len(),
    ensures
        given.problem_with(ends) is None <==> {
            &&& text::trimmed(given.account_id@).len() > 0
            &&& given.history_seed_bars >= 5_000
            &&& text::trimmed(given.ctpd.base_url@).len() > 0
            &&& given.ctpd.stale_after_ms > 0
            &&& given.linkit matches Some(linkit) ==> text::trimmed(linkit.base_url@).len() > 0
                && text::trimmed(linkit.recipient_username@).len() > 0
            &&& given.instruments@.len() == 4
            &&& are_tradable(given.instruments@, ends)
            &&& has_symbol(given.instruments@, "IC8888"@)
            &&& has_symbol(given.instruments@, "IF8888"@)
            &&& has_symbol(given.instruments@, "IH8888"@)
            &&& has_symbol(given.instruments@, "IM8888"@)
        },
{
    let all = given.instruments@;
    lemma_instruments(all, ends);
    assert forall|symbol: Seq<char>| has_symbol(all, symbol) == #[trigger] config::symbol_listed(
        all,
        symbol,
    ) by {}
    assert(config::in_universe("IC8888"@) && config::in_universe("IF8888"@) && config::in_universe(
        "IH8888"@,
    ) && config::in_universe("IM8888"@));
    if config::covers_universe(all) {
        assert(config::symbol_listed(all, "IC8888"@));
        assert(config::symbol_listed(all, "IF8888"@));
        assert(config::symbol_listed(all, "IH8888"@));
        assert(config::symbol_listed(all, "IM8888"@));
    }
    if all.len() == 4 && has_symbol(all, "IC8888"@) && has_symbol(all, "IF8888"@) && has_symbol(
        all,
        "IH8888"@,
    ) && has_symbol(all, "IM8888"@) {
        lemma_four(all);
    }
}

/// Four instruments that have all four symbols have no others.
proof fn lemma_four(all: Seq<InstrumentConfig>)
    requires
        all.len() == 4,
        has_symbol(all, "IC8888"@),
        has_symbol(all, "IF8888"@),
        has_symbol(all, "IH8888"@),
        has_symbol(all, "IM8888"@),
    ensures
        config::covers_universe(all),
{
    reveal_strlit("IC8888");
    reveal_strlit("IF8888");
    reveal_strlit("IH8888");
    reveal_strlit("IM8888");
    assert("IC8888"@[1] == 'C' && "IF8888"@[1] == 'F' && "IH8888"@[1] == 'H' && "IM8888"@[1]
        == 'M');
    let c = choose|i: int| 0 <= i < all.len() && (#[trigger] all[i]).symbol@ == "IC8888"@;
    let f = choose|i: int| 0 <= i < all.len() && (#[trigger] all[i]).symbol@ == "IF8888"@;
    let h = choose|i: int| 0 <= i < all.len() && (#[trigger] all[i]).symbol@ == "IH8888"@;
    let m = choose|i: int| 0 <= i < all.len() && (#[trigger] all[i]).symbol@ == "IM8888"@;
    assert forall|symbol: Seq<char>| #[trigger]
        config::symbol_listed(all, symbol) <==> config::in_universe(symbol) by {
        if config::symbol_listed(all, symbol) {
            let i = choose|i: int| 0 <= i < all.len() && (#[trigger] all[i]).symbol@ == symbol;
            assert(i == c || i == f || i == h || i == m);
        }
    }
}

} // verus!
