//! Unix timestamps of the system clock, and the UTC dates of timestamps.

use vstd::prelude::*;
use std::time::UNIX_EPOCH;
use time::OffsetDateTime;
use time::format_description::well_known::Rfc3339;

verus! {

/// Relies on `SystemTime::elapsed` on `UNIX_EPOCH`: how far the clock is from
/// the epoch, as (at or after the epoch, whole seconds, nanoseconds past them).
/// The nanoseconds are below one second, as `Duration::subsec_nanos` documents.
#[verifier::external_body]
pub(crate) fn clock_since_epoch() -> (r: (bool, u64, u32))
    ensures
        r.2 < 1_000_000_000,
{
    match UNIX_EPOCH.elapsed() {
        Ok(d) => (true, d.as_secs(), d.subsec_nanos()),
        Err(e) => (false, e.duration().as_secs(), e.duration().subsec_nanos()),
    }
}

/// `x`, capped at the largest `i64`.
pub open spec fn cap(x: int) -> int {
    if x > i64::MAX {
        i64::MAX as int
    } else {
        x
    }
}

/// A signed timestamp from a distance to the epoch, capped to fit an `i64`.
pub open spec fn signed_offset(after: bool, amount: int) -> int {
    if after {
        cap(amount)
    } else {
        -cap(amount)
    }
}

/// Whole seconds since the epoch, negative before it.
pub fn secs_from_offset(after: bool, secs: u64) -> (r: i64)
    ensures
        r == signed_offset(after, secs as int),
{
    let c: i64 = if secs > i64::MAX as u64 {
        i64::MAX
    } else {
        secs as i64
    };
    if after {
        c
    } else {
        -c
    }
}

/// Whole milliseconds since the epoch, negative before it.
pub fn millis_from_offset(after: bool, secs: u64, nanos: u32) -> (r: i64)
    ensures
        r == signed_offset(after, secs * 1000 + nanos / 1_000_000),
{
    let total: u128 = secs as u128 * 1000 + (nanos / 1_000_000) as u128;
    let c: i64 = if total > i64::MAX as u128 {
        i64::MAX
    } else {
        total as i64
    };
    if after {
        c
    } else {
        -c
    }
}

/// The current Unix time in whole seconds.
pub fn get_current_timestamp_secs() -> (r: i64)
    ensures
        r > i64::MIN,
{
    let (after, secs, _nanos) = clock_since_epoch();
    secs_from_offset(after, secs)
}

/// The current Unix time in whole milliseconds.
pub fn get_current_timestamp_millis() -> (r: i64)
    ensures
        r > i64::MIN,
{
    let (after, secs, nanos) = clock_since_epoch();
    millis_from_offset(after, secs, nanos)
}

/// The earliest timestamp with a date: -9999-01-01T00:00:00Z.
pub const MIN_DATED: i64 = -377705116800;

/// The latest timestamp with a date: 9999-12-31T23:59:59Z.
pub const MAX_DATED: i64 = 253402300799;

/// The earliest timestamp with a four-digit year: 0000-01-01T00:00:00Z.
pub const MIN_RFC3339: i64 = -62167219200;

/// The UTC calendar date of a Unix timestamp, as `time::Date` displays it.
pub uninterp spec fn utc_date_text(ts: int) -> Seq<char>;

/// A Unix timestamp as `time` formats it in RFC 3339, in UTC.
pub uninterp spec fn rfc3339_text(ts: int) -> Seq<char>;

/// Relies on `time::OffsetDateTime::from_unix_timestamp`, which accepts
/// exactly the timestamps of years -9999 to 9999, on the `Display` of the
/// `Date` of the result, and on its RFC 3339 formatting, which takes years 0
/// to 9999 only. Gives the date and, where it exists, the RFC 3339 text.
#[verifier::external_body]
fn utc_texts(ts: i64) -> (r: Option<(String, Option<String>)>)
    ensures
        r is Some <==> MIN_DATED <= ts <= MAX_DATED,
        r is Some ==> (r->0).0@ == utc_date_text(ts as int),
        r is Some ==> ((r->0).1 is Some <==> MIN_RFC3339 <= ts),
        r is Some && (r->0).1 is Some ==> (r->0).1->0@ == rfc3339_text(ts as int),
{
    OffsetDateTime::from_unix_timestamp(ts).ok().map(|d| (d.date().to_string(), d.format(&Rfc3339).ok()))
}

/// The UTC date of a Unix timestamp, as `YYYY-MM-DD`.
pub fn timestamp_to_date(timestamp: i64) -> (r: String)
    requires
        MIN_DATED <= timestamp <= MAX_DATED,
    ensures
        r@ == utc_date_text(timestamp as int),
{
    match utc_texts(timestamp) {
        Some((d, _)) => d,
        None => {
            proof {
                assert(false);
            }
            String::new()
        },
    }
}

/// A Unix timestamp in RFC 3339, in UTC.
pub fn timestamp_to_rfc3339(timestamp: i64) -> (r: String)
    requires
        MIN_RFC3339 <= timestamp <= MAX_DATED,
    ensures
        r@ == rfc3339_text(timestamp as int),
{
    match utc_texts(timestamp) {
        Some((_, Some(t))) => t,
        _ => {
            proof {
                assert(false);
            }
            String::new()
        },
    }
}

} // verus!
