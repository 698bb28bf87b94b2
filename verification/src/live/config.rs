//! The configuration of a live deployment.

use crate::binary64::Binary64;
use crate::calendar;
use crate::calendar::TimeOfDay;
use crate::ordered;
use crate::ordered::TextSet;
use crate::text;
use vstd::prelude::*;

verus! {

/// Bars that the slowest indicator needs before the feed takes over.
pub const MINIMUM_SEED_BARS: usize = 5_000;

/// Completed one-minute bars of a normal day session.
pub const SESSION_BARS: usize = 240;

#[derive(Clone, Debug)]
pub struct LiveConfig {
    /// Stable remote-account identifier, not a human display name.
    pub account_id: String,
    pub bind_address: String,
    /// Number of complete bars that are replayed before the feed becomes
    /// authoritative.
    pub history_seed_bars: usize,
    pub ctpd: CtpdConfig,
    pub remote_account: RemoteAccountConfig,
    pub linkit: Option<LinkitConfig>,
    pub instruments: Vec<InstrumentConfig>,
}

#[derive(Clone, Debug)]
pub struct CtpdConfig {
    pub base_url: String,
    pub bearer_token_file: String,
    pub stale_after_ms: u64,
}

#[derive(Clone, Debug)]
pub struct RemoteAccountConfig {
    /// Every deployment chooses explicitly whether its target account is
    /// publicly readable.
    pub allow_unauthenticated: bool,
    pub bearer_token_file: Option<String>,
}

#[derive(Clone, Debug)]
pub struct LinkitConfig {
    pub base_url: String,
    pub bearer_token_file: String,
    pub recipient_username: String,
}

#[derive(Clone, Debug)]
pub struct InstrumentConfig {
    /// Exact identifier of the continuous series, for example `IF8888`.
    pub symbol: String,
    /// Continuous index of the feed, for example `IDX-CFFEX-IF`.
    pub market_instrument_id: String,
    /// Explicit front contract that is exposed as the target position.
    pub target_instrument_id: String,
    pub parquet: String,
    /// The contracts that a position weight of one stands for.
    pub full_weight_contracts: Binary64,
    pub contract_multiplier: Binary64,
    pub session_bar_count: usize,
    /// The bar-end time whose open is the exit price of the day.
    pub session_end_time: String,
}

#[derive(Clone, Debug)]
pub struct Secrets {
    pub ctpd_bearer_token: String,
    pub remote_bearer_token: Option<String>,
    pub linkit_bearer_token: Option<String>,
}

/// Whether a text is nothing but whitespace.
pub open spec fn blank(value: Seq<char>) -> bool {
    text::trimmed(value).len() == 0
}

/// Whether an instrument is usable on its own.
pub open spec fn usable(instrument: InstrumentConfig, end_time: TimeOfDay) -> bool {
    &&& end_time == (TimeOfDay { seconds: 54_000, nanoseconds: 0 })
    &&& !blank(instrument.symbol@)
    &&& !blank(instrument.market_instrument_id@)
    &&& !blank(instrument.target_instrument_id@)
    &&& instrument.full_weight_contracts.finite()
    &&& instrument.full_weight_contracts.positive()
    &&& instrument.contract_multiplier.finite()
    &&& instrument.contract_multiplier.positive()
    &&& instrument.session_bar_count == SESSION_BARS
}

/// Whether some instrument has a market identifier.
pub open spec fn market_taken(instruments: Seq<InstrumentConfig>, id: Seq<char>) -> bool {
    exists|i: int|
        0 <= i < instruments.len() && (#[trigger] instruments[i]).market_instrument_id@ == id
}

/// Whether some instrument has a target identifier.
pub open spec fn target_taken(instruments: Seq<InstrumentConfig>, id: Seq<char>) -> bool {
    exists|i: int|
        0 <= i < instruments.len() && (#[trigger] instruments[i]).target_instrument_id@ == id
}

/// Whether some instrument has a symbol.
pub open spec fn symbol_listed(instruments: Seq<InstrumentConfig>, symbol: Seq<char>) -> bool {
    exists|i: int| 0 <= i < instruments.len() && (#[trigger] instruments[i]).symbol@ == symbol
}

/// Whether a symbol belongs to the model's universe.
pub open spec fn in_universe(symbol: Seq<char>) -> bool {
    symbol == "IC8888"@ || symbol == "IF8888"@ || symbol == "IH8888"@ || symbol == "IM8888"@
}

/// Whether the symbols of instruments are those of the universe.
pub open spec fn covers_universe(instruments: Seq<InstrumentConfig>) -> bool {
    forall|symbol: Seq<char>| #[trigger]
        symbol_listed(instruments, symbol) <==> in_universe(symbol)
}

/// The time at which the session of an instrument ends, where it is a time.
pub open spec fn end_time(instrument: InstrumentConfig) -> Option<TimeOfDay> {
    match calendar::parsed_time(instrument.session_end_time@, "%H:%M:%S"@) {
        Some(time) => Some(TimeOfDay { seconds: time.0, nanoseconds: time.1 }),
        None => None,
    }
}

/// The times at which the sessions of instruments end.
pub open spec fn end_times(instruments: Seq<InstrumentConfig>) -> Seq<Option<TimeOfDay>> {
    instruments.map_values(|instrument: InstrumentConfig| end_time(instrument))
}

/// What is wrong with the first instrument that is not as it should be, given
/// the times at which the sessions end.
pub open spec fn instruments_problem(
    instruments: Seq<InstrumentConfig>,
    times: Seq<Option<TimeOfDay>>,
) -> Option<Seq<char>>
    decreases instruments.len(),
{
    if instruments.len() == 0 {
        None
    } else {
        let last = instruments.last();
        let rest = instruments.drop_last();
        match instruments_problem(rest, times) {
            Some(error) => Some(error),
            None => match times[instruments.len() - 1] {
                None => Some("each session_end_time must be HH:MM:SS"@),
                Some(time) => if !usable(last, time) {
                    Some(
                        "each lab0334 instrument requires the 240-bar 15:00:00 session, names, and positive finite contract sizing"@,
                    )
                } else if market_taken(rest, last.market_instrument_id@) {
                    Some("market_instrument_id must be unique"@)
                } else if target_taken(rest, last.target_instrument_id@) {
                    Some("target_instrument_id must be unique"@)
                } else {
                    None
                },
            },
        }
    }
}

impl LiveConfig {
    /// What is wrong with the configuration.
    pub open spec fn problem(self) -> Option<Seq<char>> {
        self.problem_with(end_times(self.instruments@))
    }

    /// What is wrong with the configuration, given the times at which the
    /// sessions of its instruments end.
    pub open spec fn problem_with(self, times: Seq<Option<TimeOfDay>>) -> Option<Seq<char>> {
        if blank(self.account_id@) {
            Some("account_id must not be empty"@)
        } else if self.history_seed_bars < MINIMUM_SEED_BARS {
            Some("history_seed_bars must be at least 5000 for lab0334 ATR history"@)
        } else if blank(self.ctpd.base_url@) || self.ctpd.stale_after_ms == 0 {
            Some("ctpd base_url and stale_after_ms must be configured"@)
        } else if self.linkit matches Some(linkit) && (blank(linkit.base_url@) || blank(
            linkit.recipient_username@,
        )) {
            Some("linkit base_url and recipient_username must be configured"@)
        } else if self.instruments@.len() != 4 {
            Some("lab0334 requires exactly IC8888, IF8888, IH8888 and IM8888"@)
        } else {
            match instruments_problem(self.instruments@, times) {
                Some(error) => Some(error),
                None => if covers_universe(self.instruments@) {
                    None
                } else {
                    Some("lab0334 symbols must be IC8888, IF8888, IH8888 and IM8888"@)
                },
            }
        }
    }

    pub fn validate(&self) -> (r: Result<(), String>)
        ensures
            match self.problem() {
                Some(error) => r matches Err(message) && message@ == error,
                None => r is Ok,
            },
    {
        let mut times: Vec<Option<TimeOfDay>> = Vec::new();
        while times.len() < self.instruments.len()
            invariant
                times@.len() <= self.instruments@.len(),
                times@ == end_times(self.instruments@).take(times@.len() as int),
            decreases self.instruments@.len() - times@.len(),
        {
            let ghost count = times@.len() as int;
            times.push(TimeOfDay::parse(self.instruments[times.len()].session_end_time.as_str()));
            assert(times@ =~= end_times(self.instruments@).take(count + 1));
        }
        assert(times@ =~= end_times(self.instruments@));
        self.validate_with(times.as_slice())
    }

    /// Checks the configuration, given the times at which the sessions of its
    /// instruments end.
    pub fn validate_with(&self, times: &[Option<TimeOfDay>]) -> (r: Result<(), String>)
        requires
            times@.len() == self.instruments@.len(),
        ensures
            match self.problem_with(times@) {
                Some(error) => r matches Err(message) && message@ == error,
                None => r is Ok,
            },
    {
        if text::is_blank(self.account_id.as_str()) {
            return Err("account_id must not be empty".to_owned());
        }
        if self.history_seed_bars < MINIMUM_SEED_BARS {
            return Err(
                "history_seed_bars must be at least 5000 for lab0334 ATR history".to_owned(),
            );
        }
        if text::is_blank(self.ctpd.base_url.as_str()) || self.ctpd.stale_after_ms == 0 {
            return Err("ctpd base_url and stale_after_ms must be configured".to_owned());
        }
        if let Some(linkit) = &self.linkit {
            if text::is_blank(linkit.base_url.as_str()) || text::is_blank(
                linkit.recipient_username.as_str(),
            ) {
                return Err("linkit base_url and recipient_username must be configured".to_owned());
            }
        }
        if self.instruments.len() != 4 {
            return Err("lab0334 requires exactly IC8888, IF8888, IH8888 and IM8888".to_owned());
        }
        let symbols: TextSet = validate_instruments(self.instruments.as_slice(), times)?;
        if is_universe(&symbols, self.instruments.as_slice()) {
            Ok(())
        } else {
            Err("lab0334 symbols must be IC8888, IF8888, IH8888 and IM8888".to_owned())
        }
    }

    /// The file that holds the token of the remote account, where one is
    /// needed. A token and public access exclude each other.
    pub fn remote_token_file(&self) -> (r: Result<Option<&String>, String>)
        ensures
            match (
                self.remote_account.allow_unauthenticated,
                self.remote_account.bearer_token_file,
            ) {
                (false, Some(path)) => r matches Ok(Some(found)) && *found == path,
                (true, None) => r matches Ok(None),
                (true, Some(_)) => r matches Err(message) && message@
                    == "remote_account cannot set a token when allow_unauthenticated=true"@,
                (false, None) => r matches Err(message) && message@
                    == "remote_account requires bearer_token_file when allow_unauthenticated=false"@,
            },
    {
        match (
            self.remote_account.allow_unauthenticated,
            &self.remote_account.bearer_token_file,
        ) {
            (false, Some(path)) => Ok(Some(path)),
            (true, None) => Ok(None),
            (true, Some(_)) => Err(
                "remote_account cannot set a token when allow_unauthenticated=true".to_owned(),
            ),
            (false, None) => Err(
                "remote_account requires bearer_token_file when allow_unauthenticated=false".to_owned(),
            ),
        }
    }
}

/// The secret that a file holds, without the whitespace around it.
pub fn secret(path: &str, content: &str) -> (r: Result<String, String>)
    ensures
        if blank(content@) {
            r matches Err(message) && message@ == "secret file "@ + path@ + " is empty"@
        } else {
            r matches Ok(value) && value@ == text::trimmed(content@)
        },
{
    let value: String = text::trim(content);
    if value.as_str().is_empty() {
        let mut message: String = "secret file ".to_owned();
        message.append(path);
        message.append(" is empty");
        return Err(message);
    }
    Ok(value)
}

/// Whether the symbols of instruments are those of the universe.
fn is_universe(symbols: &TextSet, instruments: &[InstrumentConfig]) -> (r: bool)
    requires
        symbols.well_formed(),
        forall|symbol: Seq<char>| #[trigger]
            symbols.has(symbol) <==> symbol_listed(instruments@, symbol),
    ensures
        r == covers_universe(instruments@),
{
    if !symbols.contains("IC8888") || !symbols.contains("IF8888") || !symbols.contains("IH8888")
        || !symbols.contains("IM8888") {
        proof {
            assert(in_universe("IC8888"@) && in_universe("IF8888"@) && in_universe("IH8888"@)
                && in_universe("IM8888"@));
            assert(symbol_listed(instruments@, "IC8888"@) == symbols.has("IC8888"@));
            assert(symbol_listed(instruments@, "IF8888"@) == symbols.has("IF8888"@));
            assert(symbol_listed(instruments@, "IH8888"@) == symbols.has("IH8888"@));
            assert(symbol_listed(instruments@, "IM8888"@) == symbols.has("IM8888"@));
        }
        return false;
    }
    let mut i: usize = 0;
    while i < instruments.len()
        invariant
            i <= instruments@.len(),
            forall|j: int| 0 <= j < i ==> in_universe((#[trigger] instruments@[j]).symbol@),
        decreases instruments@.len() - i,
    {
        let symbol: &str = instruments[i].symbol.as_str();
        if !text::same(symbol, "IC8888") && !text::same(symbol, "IF8888") && !text::same(
            symbol,
            "IH8888",
        ) && !text::same(symbol, "IM8888") {
            assert(symbol_listed(instruments@, instruments@[i as int].symbol@));
            return false;
        }
        i = i + 1;
    }
    assert forall|symbol: Seq<char>| #[trigger] symbol_listed(instruments@, symbol) <==> in_universe(
        symbol,
    ) by {
        if symbol_listed(instruments@, symbol) {
            let j = choose|j: int|
                0 <= j < instruments@.len() && (#[trigger] instruments@[j]).symbol@ == symbol;
            assert(in_universe(instruments@[j].symbol@));
        }
        assert(symbols.has(symbol) <==> symbol_listed(instruments@, symbol));
    }
    true
}

/// Checks the instruments one after the other and gives the set of their
/// symbols.
fn validate_instruments(
    instruments: &[InstrumentConfig],
    times: &[Option<TimeOfDay>],
) -> (r: Result<TextSet, String>)
    requires
        times@.len() == instruments@.len(),
    ensures
        match instruments_problem(instruments@, times@) {
            Some(error) => r matches Err(message) && message@ == error,
            None => r matches Ok(symbols) && symbols.well_formed() && forall|symbol: Seq<char>|
                #[trigger] symbols.has(symbol) <==> symbol_listed(instruments@, symbol),
        },
{
    let mut symbols: TextSet = TextSet::new();
    let mut market_ids: TextSet = TextSet::new();
    let mut targets: TextSet = TextSet::new();
    let mut i: usize = 0;
    assert(instruments@.take(0) =~= Seq::<InstrumentConfig>::empty());
    while i < instruments.len()
        invariant
            i <= instruments@.len(),
            symbols.well_formed(),
            market_ids.well_formed(),
            targets.well_formed(),
            times@.len() == instruments@.len(),
            instruments_problem(instruments@.take(i as int), times@) is None,
            forall|id: Seq<char>| #[trigger]
                symbols.has(id) <==> symbol_listed(instruments@.take(i as int), id),
            forall|id: Seq<char>| #[trigger]
                market_ids.has(id) <==> market_taken(instruments@.take(i as int), id),
            forall|id: Seq<char>| #[trigger]
                targets.has(id) <==> target_taken(instruments@.take(i as int), id),
        decreases instruments@.len() - i,
    {
        let ghost shorter = instruments@.take(i as int);
        let ghost longer = instruments@.take(i + 1);
        let instrument: &InstrumentConfig = &instruments[i];
        proof {
            assert(longer.drop_last() =~= shorter);
            assert(longer.last() == *instrument);
            lemma_one_more(shorter, *instrument);
            assert(longer =~= shorter.push(*instrument));
        }
        let end_time: TimeOfDay = match times[i] {
            Some(end_time) => end_time,
            None => {
                proof {
                    lemma_instruments_problem(instruments@, times@, i + 1);
                }
                return Err("each session_end_time must be HH:MM:SS".to_owned());
            },
        };
        if end_time.seconds != 54_000 || end_time.nanoseconds != 0 || text::is_blank(
            instrument.symbol.as_str(),
        ) || text::is_blank(instrument.market_instrument_id.as_str()) || text::is_blank(
            instrument.target_instrument_id.as_str(),
        ) || !instrument.full_weight_contracts.is_finite()
            || !instrument.full_weight_contracts.is_positive()
            || !instrument.contract_multiplier.is_finite()
            || !instrument.contract_multiplier.is_positive() || instrument.session_bar_count
            != SESSION_BARS {
            proof {
                lemma_instruments_problem(instruments@, times@, i + 1);
            }
            return Err(
                "each lab0334 instrument requires the 240-bar 15:00:00 session, names, and positive finite contract sizing".to_owned(),
            );
        }
        let _new: bool = symbols.insert(instrument.symbol.clone());
        if !market_ids.insert(instrument.market_instrument_id.clone()) {
            proof {
                assert(market_taken(shorter, instrument.market_instrument_id@));
                lemma_instruments_problem(instruments@, times@, i + 1);
            }
            return Err("market_instrument_id must be unique".to_owned());
        }
        if !targets.insert(instrument.target_instrument_id.clone()) {
            proof {
                assert(!market_taken(shorter, instrument.market_instrument_id@));
                assert(target_taken(shorter, instrument.target_instrument_id@));
                lemma_instruments_problem(instruments@, times@, i + 1);
            }
            return Err("target_instrument_id must be unique".to_owned());
        }
        proof {
            assert(!market_taken(shorter, instrument.market_instrument_id@));
            assert(!target_taken(shorter, instrument.target_instrument_id@));
        }
        i = i + 1;
    }
    assert(instruments@.take(instruments@.len() as int) =~= instruments@);
    Ok(symbols)
}

proof fn lemma_instruments_problem(
    instruments: Seq<InstrumentConfig>,
    times: Seq<Option<TimeOfDay>>,
    count: int,
)
    requires
        0 <= count <= instruments.len(),
        instruments_problem(instruments.take(count), times) is Some,
    ensures
        instruments_problem(instruments, times) == instruments_problem(
            instruments.take(count),
            times,
        ),
    decreases instruments.len(),
{
    if count == instruments.len() {
        assert(instruments.take(count) =~= instruments);
    } else {
        assert(instruments.drop_last().take(count) =~= instruments.take(count));
        lemma_instruments_problem(instruments.drop_last(), times, count);
    }
}

/// One instrument more takes its three identifiers.
proof fn lemma_one_more(instruments: Seq<InstrumentConfig>, last: InstrumentConfig)
    ensures
        forall|id: Seq<char>| #[trigger]
            symbol_listed(instruments.push(last), id) <==> symbol_listed(instruments, id) || id
                == last.symbol@,
        forall|id: Seq<char>| #[trigger]
            market_taken(instruments.push(last), id) <==> market_taken(instruments, id) || id
                == last.market_instrument_id@,
        forall|id: Seq<char>| #[trigger]
            target_taken(instruments.push(last), id) <==> target_taken(instruments, id) || id
                == last.target_instrument_id@,
{
    let longer = instruments.push(last);
    assert(longer[instruments.len() as int] == last);
    assert forall|id: Seq<char>| #[trigger] symbol_listed(longer, id) <==> symbol_listed(
        instruments,
        id,
    ) || id == last.symbol@ by {
        if symbol_listed(instruments, id) {
            let i = choose|i: int|
                0 <= i < instruments.len() && (#[trigger] instruments[i]).symbol@ == id;
            assert(longer[i].symbol@ == id);
        }
        if symbol_listed(longer, id) {
            let i = choose|i: int| 0 <= i < longer.len() && (#[trigger] longer[i]).symbol@ == id;
            if i < instruments.len() {
                assert(instruments[i].symbol@ == id);
            }
        }
    }
    assert forall|id: Seq<char>| #[trigger] market_taken(longer, id) <==> market_taken(
        instruments,
        id,
    ) || id == last.market_instrument_id@ by {
        if market_taken(instruments, id) {
            let i = choose|i: int|
                0 <= i < instruments.len() && (#[trigger] instruments[i]).market_instrument_id@
                    == id;
            assert(longer[i].market_instrument_id@ == id);
        }
        if market_taken(longer, id) {
            let i = choose|i: int|
                0 <= i < longer.len() && (#[trigger] longer[i]).market_instrument_id@ == id;
            if i < instruments.len() {
                assert(instruments[i].market_instrument_id@ == id);
            }
        }
    }
    assert forall|id: Seq<char>| #[trigger] target_taken(longer, id) <==> target_taken(
        instruments,
        id,
    ) || id == last.target_instrument_id@ by {
        if target_taken(instruments, id) {
            let i = choose|i: int|
                0 <= i < instruments.len() && (#[trigger] instruments[i]).target_instrument_id@
                    == id;
            assert(longer[i].target_instrument_id@ == id);
        }
        if target_taken(longer, id) {
            let i = choose|i: int|
                0 <= i < longer.len() && (#[trigger] longer[i]).target_instrument_id@ == id;
            if i < instruments.len() {
                assert(instruments[i].target_instrument_id@ == id);
            }
        }
    }
}

} // verus!
