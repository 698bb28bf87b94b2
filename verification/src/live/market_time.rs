//! Instants, and the wall clock of Shanghai.

use chrono::{DateTime, FixedOffset, TimeZone, Timelike, Utc};
use vstd::prelude::*;

verus! {

/// The wall clock of Shanghai runs eight hours ahead.
pub const SHANGHAI_OFFSET_SECONDS: i32 = 28_800;

/// A reading of a wall clock: seconds since its 1970-01-01 00:00:00, and
/// nanoseconds.
#[derive(Clone, Copy, Debug, PartialEq, Eq, Structural)]
pub struct WallClock {
    pub seconds: i64,
    pub nanoseconds: u32,
}

/// The first and the last second of the supported years.
pub const FIRST_SECOND: i64 = -8_334_601_228_800;

pub const LAST_SECOND: i64 = 8_210_266_876_799;

/// Whether a second lies in the supported years.
pub open spec fn supported(seconds: int) -> bool {
    FIRST_SECOND <= seconds <= LAST_SECOND
}

impl WallClock {
    /// Whether the reading lies in the supported years. The nanoseconds pass a
    /// whole second in a leap second alone, which is the last of a minute.
    pub open spec fn valid(self) -> bool {
        &&& supported(self.seconds as int)
        &&& self.nanoseconds < 1_000_000_000 || (self.nanoseconds < 2_000_000_000 && self.seconds
            % 60 == 59)
    }
}

/// The nanoseconds since 1970-01-01 UTC at which the wall clock of Shanghai
/// shows a reading.
pub open spec fn shanghai_instant(clock: WallClock) -> int {
    (clock.seconds - SHANGHAI_OFFSET_SECONDS) * 1_000_000_000 + clock.nanoseconds
}

/// What the wall clock of Shanghai shows at an instant.
pub open spec fn shanghai_reading(timestamp_ns: u64) -> WallClock {
    WallClock {
        seconds: (timestamp_ns / 1_000_000_000 + SHANGHAI_OFFSET_SECONDS) as i64,
        nanoseconds: (timestamp_ns % 1_000_000_000) as u32,
    }
}

/// `DateTime::with_timezone` and `DateTime::naive_local` with a fixed offset: the
/// local clock of an instant runs ahead of UTC by the offset.
#[verifier::external_body]
fn local_clock(timestamp_ns: i64, offset_seconds: i32) -> (r: (i64, u32))
    requires
        timestamp_ns >= 0,
        0 <= offset_seconds < 86_400,
    ensures
        r.0 == timestamp_ns / 1_000_000_000 + offset_seconds,
        r.1 == timestamp_ns % 1_000_000_000,
{
    let offset = FixedOffset::east_opt(offset_seconds).expect("offset is valid");
    let local = DateTime::<Utc>::from_timestamp_nanos(timestamp_ns).with_timezone(&offset).naive_local();
    (local.and_utc().timestamp(), local.and_utc().timestamp_subsec_nanos())
}

/// `TimeZone::from_local_datetime` with a fixed offset, and
/// `DateTime::timestamp_nanos_opt`: the instant of a local clock, where it lies
/// in the supported years, and its nanoseconds, where they fit.
#[verifier::external_body]
fn local_instant(seconds: i64, nanoseconds: u32, offset_seconds: i32) -> (r: Option<Option<i64>>)
    requires
        (WallClock { seconds, nanoseconds }).valid(),
        0 <= offset_seconds < 86_400,
        offset_seconds % 60 == 0,
    ensures
        r is Some == supported(seconds - offset_seconds),
        r matches Some(instant) ==> instant == ({
            let exact = (seconds - offset_seconds) * 1_000_000_000 + nanoseconds;
            if i64::MIN <= exact <= i64::MAX {
                Some(exact as i64)
            } else {
                None
            }
        }),
{
    let offset = FixedOffset::east_opt(offset_seconds).expect("offset is valid");
    let local = DateTime::from_timestamp(seconds, nanoseconds)?.naive_utc();
    offset.from_local_datetime(&local).single().map(|time| time.timestamp_nanos_opt())
}

/// `DateTime::timestamp_millis`: the whole milliseconds of an instant.
#[verifier::external_body]
fn whole_millis(timestamp_ns: i64) -> (r: i64)
    requires
        timestamp_ns >= 0,
    ensures
        r == timestamp_ns / 1_000_000,
{
    DateTime::<Utc>::from_timestamp_nanos(timestamp_ns).timestamp_millis()
}

/// What the wall clock of Shanghai shows at an instant.
pub fn market_datetime(timestamp_ns: u64) -> (r: Result<WallClock, String>)
    ensures
        if timestamp_ns > i64::MAX {
            r matches Err(message) && message@ == "timestamp outside chrono range"@
        } else {
            r == Ok::<WallClock, String>(shanghai_reading(timestamp_ns))
        },
{
    if timestamp_ns > i64::MAX as u64 {
        return Err("timestamp outside chrono range".to_owned());
    }
    let (seconds, nanoseconds): (i64, u32) = local_clock(timestamp_ns as i64, SHANGHAI_OFFSET_SECONDS);
    Ok(WallClock { seconds, nanoseconds })
}

/// The instant at which the wall clock of Shanghai shows a reading.
pub fn timestamp_ns_from_shanghai_wall_clock(clock: WallClock) -> (r: Result<u64, String>)
    requires
        clock.valid(),
    ensures
        ({
            let exact = shanghai_instant(clock);
            if !supported(clock.seconds - SHANGHAI_OFFSET_SECONDS) {
                r matches Err(message) && message@
                    == "Shanghai market timestamp is not unambiguous"@
            } else if exact < i64::MIN || exact > i64::MAX {
                r matches Err(message) && message@ == "market timestamp outside chrono range"@
            } else if exact < 0 {
                r matches Err(message) && message@ == "market timestamp before epoch"@
            } else {
                r == Ok::<u64, String>(exact as u64)
            }
        }),
{
    match local_instant(clock.seconds, clock.nanoseconds, SHANGHAI_OFFSET_SECONDS) {
        None => Err("Shanghai market timestamp is not unambiguous".to_owned()),
        Some(None) => Err("market timestamp outside chrono range".to_owned()),
        Some(Some(instant)) => if instant < 0 {
            Err("market timestamp before epoch".to_owned())
        } else {
            Ok(instant as u64)
        },
    }
}

/// Nanoseconds of the milliseconds that the feed counts.
pub open spec fn feed_nanoseconds(timestamp_ms: i64) -> Result<u64, Seq<char>> {
    let nanos = timestamp_ms * 1_000_000;
    if nanos < i64::MIN || nanos > i64::MAX {
        Err("CTPD Kline timestamp overflow"@)
    } else if nanos < 0 {
        Err("CTPD Kline timestamp before epoch"@)
    } else {
        Ok(nanos as u64)
    }
}

pub fn timestamp_ns_from_ctpd_ms(timestamp_ms: i64) -> (r: Result<u64, String>)
    ensures
        match feed_nanoseconds(timestamp_ms) {
            Ok(nanos) => r == Ok::<u64, String>(nanos),
            Err(error) => r matches Err(message) && message@ == error,
        },
{
    match timestamp_ms.checked_mul(1_000_000) {
        None => Err("CTPD Kline timestamp overflow".to_owned()),
        Some(nanos) => if nanos < 0 {
            Err("CTPD Kline timestamp before epoch".to_owned())
        } else {
            Ok(nanos as u64)
        },
    }
}

pub fn ctpd_ms_from_timestamp_ns(timestamp_ns: u64) -> (r: Result<i64, String>)
    ensures
        if timestamp_ns > i64::MAX {
            r matches Err(message) && message@ == "timestamp outside chrono range"@
        } else {
            r == Ok::<i64, String>((timestamp_ns / 1_000_000) as i64)
        },
{
    if timestamp_ns > i64::MAX as u64 {
        return Err("timestamp outside chrono range".to_owned());
    }
    Ok(whole_millis(timestamp_ns as i64))
}

/// What the hour and the minute of the wall clock of Shanghai are at an instant:
/// minutes since midnight.
pub open spec fn shanghai_minute(seconds: i64) -> int {
    (seconds + SHANGHAI_OFFSET_SECONDS) % 86_400 / 60
}

/// Whether an instant, in seconds since 1970-01-01 UTC, falls into the midday
/// break, in which the exchange is silent: from 11:30 until 13:00.
pub open spec fn midday(seconds: i64) -> bool {
    690 <= shanghai_minute(seconds) < 780
}

/// `DateTime::with_timezone` with a fixed offset, and `Timelike::hour` and
/// `Timelike::minute`: hour and minute of the local clock, which runs ahead of
/// UTC by the offset.
#[verifier::external_body]
fn local_minute(seconds: i64, offset_seconds: i32) -> (r: Option<(u32, u32)>)
    requires
        supported(seconds as int),
        0 <= offset_seconds < 86_400,
    ensures
        r is Some,
        r->Some_0.0 == (seconds + offset_seconds) % 86_400 / 3_600,
        r->Some_0.1 == (seconds + offset_seconds) % 3_600 / 60,
{
    let offset = FixedOffset::east_opt(offset_seconds)?;
    let local = DateTime::from_timestamp(seconds, 0)?.with_timezone(&offset);
    Some((local.hour(), local.minute()))
}

/// Whether an instant, in seconds since 1970-01-01 UTC, falls into the midday
/// break of the exchange. A position can be held across it, so its silence
/// invalidates nothing.
pub fn is_cffex_lunch_break(now: i64) -> (r: bool)
    requires
        supported(now as int),
    ensures
        r == midday(now),
{
    let (hour, minute): (u32, u32) = local_minute(now, SHANGHAI_OFFSET_SECONDS).unwrap();
    (hour == 11 && minute >= 30) || hour == 12
}

/// A reading of the wall clock and the instant that it stands for give each
/// other back.
pub proof fn law_wall_clock_round_trip(clock: WallClock)
    requires
        clock.nanoseconds < 1_000_000_000,
        0 <= shanghai_instant(clock) <= u64::MAX,
    ensures
        shanghai_reading(shanghai_instant(clock) as u64) == clock,
{
}

/// Whole milliseconds of the feed survive the way to nanoseconds and back.
pub proof fn law_feed_milliseconds_round_trip(timestamp_ms: i64)
    ensures
        feed_nanoseconds(timestamp_ms) matches Ok(nanos) ==> nanos / 1_000_000 == timestamp_ms,
{
}

} // verus!
