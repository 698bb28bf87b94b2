//! Notifications of simulated trades.

use crate::binary64::Binary64;
use crate::calendar;
use crate::decimal;
use crate::fixed_capital::daily::SHANGHAI_OFFSET_NS;
use crate::text;
use vstd::prelude::*;

verus! {

/// A simulated trade that is announced.
#[derive(Debug)]
pub struct LiveTradeSignal {
    pub candidate_id: String,
    pub symbol: String,
    pub target_instrument_id: String,
    pub side: String,
    pub action: &'static str,
    pub contracts: Binary64,
    pub price: Binary64,
    pub at_ns: u64,
}

/// An instant on the wall clock of Shanghai, in the form
/// `2026-08-14T05:00:00+08:00`.
pub open spec fn shanghai_text(timestamp_ns: u64) -> Seq<char> {
    let local = (timestamp_ns + SHANGHAI_OFFSET_NS) as u64;
    calendar::day_text(calendar::stamp_day(local)) + "T"@ + calendar::time_text(
        calendar::time_of_day(local),
    ) + "+08:00"@
}

/// The message that announces a signal; `contracts` renders their number.
pub open spec fn message(signal: LiveTradeSignal, contracts: Seq<char>) -> Seq<char> {
    "Bullet live simulated target \u{b7} lab0334\nSignal: "@ + signal.action@ + " "@ + signal.side@
        + " "@ + contracts + " "@ + signal.target_instrument_id@ + " @ "@ + decimal::fixed(
        signal.price,
        2,
    )
        + "\nSource: current CTPD live feed \u{b7} execution: simulated target only, no broker order\nStrategy: lab0334 \u{b7} symbol: "@
        + signal.symbol@ + " \u{b7} time: "@ + shanghai_text(signal.at_ns) + "\nSignal ID: "@
        + signal.candidate_id@
}

/// The message that announces a signal.
pub fn format_signal(signal: &LiveTradeSignal, contracts: &str) -> (r: Result<String, String>)
    ensures
        if signal.at_ns > i64::MAX {
            r matches Err(error) && error@ == "signal timestamp outside chrono range"@
        } else {
            r matches Ok(text) && text@ == message(*signal, contracts@)
        },
{
    if signal.at_ns > i64::MAX as u64 {
        return Err("signal timestamp outside chrono range".to_owned());
    }
    let mut at: String = String::new();
    calendar::push_clock(&mut at, signal.at_ns + SHANGHAI_OFFSET_NS, "T");
    at.append("+08:00");
    assert(at@ =~= shanghai_text(signal.at_ns));
    let mut out: String = "Bullet live simulated target \u{b7} lab0334\nSignal: ".to_owned();
    out.append(signal.action);
    out.append(" ");
    out.append(signal.side.as_str());
    out.append(" ");
    out.append(contracts);
    out.append(" ");
    out.append(signal.target_instrument_id.as_str());
    out.append(" @ ");
    decimal::push_fixed(&mut out, signal.price, 2);
    out.append(
        "\nSource: current CTPD live feed \u{b7} execution: simulated target only, no broker order\nStrategy: lab0334 \u{b7} symbol: ",
    );
    out.append(signal.symbol.as_str());
    out.append(" \u{b7} time: ");
    out.append(at.as_str());
    out.append("\nSignal ID: ");
    out.append(signal.candidate_id.as_str());
    Ok(out)
}

/// The address to which messages are posted.
pub fn messages_url(origin: &str) -> (r: String)
    ensures
        r@ == text::without_end(origin@, '/') + "/bot/v1/messages"@,
{
    let mut url: String = text::trim_end_of(origin, '/');
    url.append("/bot/v1/messages");
    url
}

/// Whether a conversation may be announced to.
pub fn check_group(kind: &str) -> (r: Result<(), String>)
    ensures
        if kind@ == "group"@ {
            r is Ok
        } else {
            r matches Err(error) && error@ == "Linkit target conversation is not a group"@
        },
{
    if text::same(kind, "group") {
        Ok(())
    } else {
        Err("Linkit target conversation is not a group".to_owned())
    }
}

} // verus!
