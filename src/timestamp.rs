//! Rendering capture times and durations.
use vstd::prelude::*;
use crate::text::{decimal, decimal_fixed, push_char, push_decimal_fixed, push_in_base};

verus! {

/// The name for chrono's rendering of a UTC time, `%Y-%m-%d %H:%M:%S`, at
/// `secs` seconds past the Unix epoch.
pub uninterp spec fn utc_date_text(secs: u64) -> Seq<char>;

/// The last second of the year 9999, well inside chrono's date range.
pub const LAST_DATED_SECOND: u64 = 253_402_300_799;

/// Relies on chrono's `DateTime::from_timestamp` (which has no value outside
/// its date range, years up to 262142) and its `%Y-%m-%d %H:%M:%S`
/// formatting; both depend on the seconds alone.
#[verifier::external_body]
fn utc_date_time(secs: u64) -> (r: Option<String>)
    ensures
        r matches Some(s) ==> s@ == utc_date_text(secs),
        secs <= LAST_DATED_SECOND ==> r is Some,
{
    match i64::try_from(secs) {
        Ok(v) => match chrono::DateTime::from_timestamp(v, 0) {
            Some(d) => Some(d.format("%Y-%m-%d %H:%M:%S").to_string()),
            None => None,
        },
        Err(_) => None,
    }
}

/// The text of a capture time (microseconds): the date and time, or the
/// seconds where no date is given, then a dot and three digits of
/// milliseconds.
pub open spec fn timestamp_text(date: Option<Seq<char>>, timestamp: u64) -> Seq<char> {
    let head = match date {
        Some(d) => d,
        None => decimal((timestamp / 1_000_000) as nat),
    };
    head + seq!['.'] + decimal_fixed(((timestamp % 1_000_000) / 1000) as nat, 3)
}

/// Renders a capture time given the date text for its whole seconds.
pub fn render_timestamp(date: Option<String>, timestamp: u64) -> (r: String)
    ensures
        r@ == timestamp_text(
            match date {
                Some(d) => Some(d@),
                None => None,
            },
            timestamp,
        ),
{
    let mut s = match date {
        Some(d) => d,
        None => {
            let mut t = String::new();
            push_in_base(&mut t, timestamp / 1_000_000, 10);
            t
        },
    };
    push_char(&mut s, '.');
    push_decimal_fixed(&mut s, (timestamp % 1_000_000) / 1000, 3);
    s
}

/// Renders a capture time (microseconds since the Unix epoch) in UTC with
/// millisecond precision.
pub fn format_timestamp(timestamp: u64) -> (r: String)
    ensures
        r@ == timestamp_text(Some(utc_date_text(timestamp / 1_000_000)), timestamp) || r@
            == timestamp_text(None, timestamp),
        timestamp / 1_000_000 <= LAST_DATED_SECOND ==> r@ == timestamp_text(
            Some(utc_date_text(timestamp / 1_000_000)),
            timestamp,
        ),
{
    render_timestamp(utc_date_time(timestamp / 1_000_000), timestamp)
}

/// A duration in milliseconds, to three decimals, with the unit.
pub open spec fn duration_ms_text(duration_ns: u64) -> Seq<char> {
    let us = duration_ns / 1000 + if duration_ns % 1000 >= 500 {
        1int
    } else {
        0int
    };
    decimal((us / 1000) as nat) + seq!['.'] + decimal_fixed((us % 1000) as nat, 3) + seq![
        'm',
        's',
    ]
}

/// Renders a duration given in nanoseconds as milliseconds with three
/// decimals (rounded half up), followed by `ms`.
pub fn format_duration_ms(duration_ns: u64) -> (r: String)
    ensures
        r@ == duration_ms_text(duration_ns),
{
    let us = duration_ns / 1000 + if duration_ns % 1000 >= 500 {
        1
    } else {
        0
    };
    let mut s = String::new();
    push_in_base(&mut s, us / 1000, 10);
    push_char(&mut s, '.');
    push_decimal_fixed(&mut s, us % 1000, 3);
    push_char(&mut s, 'm');
    push_char(&mut s, 's');
    assert(s@ =~= duration_ms_text(duration_ns));
    s
}

} // verus!
