//! The time of day, as it stands in what is reported.

use vstd::prelude::*;

verus! {

/// A moment: whole seconds since the start of 1970 in UTC, and the nanoseconds
/// since the last whole second.
#[derive(Clone, Copy, Debug, PartialEq, Eq)]
pub struct UtcTime {
    pub secs: i64,
    pub nanos: u32,
}

/// Whether `time` is a moment from 1970 on that the calendar of `chrono`
/// reaches; its last year is 262142.
pub open spec fn in_calendar(time: UtcTime) -> bool {
    0 <= time.secs <= 8210266876799 && time.nanos < 1_000_000_000
}

/// The text that `chrono::DateTime::to_rfc3339` gives for a moment in UTC.
pub uninterp spec fn rfc3339_text(secs: i64, nanos: u32) -> Seq<char>;

/// Whether `text` is the RFC 3339 form of some moment.
pub open spec fn is_timestamp(text: Seq<char>) -> bool {
    exists|time: UtcTime|
        #[trigger] in_calendar(time) && text == rfc3339_text(time.secs, time.nanos)
}

/// Calls `chrono::Utc::now`. Trusted: the moment that it reads from the clock
/// lies in the calendar, since the call itself panics on a clock that is set
/// before 1970 or beyond the calendar's end. Which moment it is depends on the
/// clock alone and is left unsaid.
#[verifier::external_body]
fn utc_now() -> (now: UtcTime)
    ensures
        in_calendar(now),
{
    let now = chrono::Utc::now();
    UtcTime { secs: now.timestamp(), nanos: now.timestamp_subsec_nanos() }
}

/// Calls `chrono::DateTime::to_rfc3339` on the moment `time` in UTC. Trusted:
/// the text is a function of the moment, named `rfc3339_text`, and has at least
/// the characters of `1970-01-01T00:00:00+00:00`.
#[verifier::external_body]
fn to_rfc3339(time: UtcTime) -> (text: String)
    requires
        in_calendar(time),
    ensures
        text@ == rfc3339_text(time.secs, time.nanos),
        text@.len() >= 25,
{
    chrono::DateTime::from_timestamp(time.secs, time.nanos).unwrap().to_rfc3339()
}

/// The RFC 3339 form of `time`.
pub fn timestamp_at(time: UtcTime) -> (text: String)
    requires
        in_calendar(time),
    ensures
        text@ == rfc3339_text(time.secs, time.nanos),
        text@.len() >= 25,
{
    to_rfc3339(time)
}

/// Whether `text` is the RFC 3339 form of a moment that the clock has shown.
pub closed spec fn is_clock_text(text: Seq<char>) -> bool {
    exists|now: UtcTime|
        #[trigger] call_ensures(utc_now, (), now) && text == rfc3339_text(now.secs, now.nanos)
}

/// The RFC 3339 form of the present moment.
pub fn timestamp_now() -> (text: String)
    ensures
        is_clock_text(text@),
        text@.len() >= 25,
{
    let now = utc_now();
    assert(call_ensures(utc_now, (), now));
    timestamp_at(now)
}

/// What the clock has shown is a moment from 1970 on.
pub proof fn law_clock_texts_are_timestamps(text: Seq<char>)
    requires
        is_clock_text(text),
    ensures
        is_timestamp(text),
{
    let now = choose|now: UtcTime|
        #[trigger] call_ensures(utc_now, (), now) && text == rfc3339_text(now.secs, now.nanos);
    assert(in_calendar(now));
}

/// The present moment is what the clock shows, to the nanosecond.
proof fn law_present_moment_is_read_from_the_clock(text: String)
    requires
        call_ensures(timestamp_now, (), text),
    ensures
        exists|now: UtcTime|
            #[trigger] call_ensures(utc_now, (), now) && text@ == rfc3339_text(
                now.secs,
                now.nanos,
            ),
{
    let now = choose|now: UtcTime|
        #[trigger] call_ensures(utc_now, (), now) && text@ == rfc3339_text(now.secs, now.nanos);
    assert(call_ensures(utc_now, (), now));
}

/// What carries the time of the clock carries a moment that the clock has shown,
/// to the nanosecond.
proof fn law_clock_texts_are_read_from_the_clock(text: Seq<char>)
    requires
        is_clock_text(text),
    ensures
        exists|now: UtcTime|
            #[trigger] call_ensures(utc_now, (), now) && text == rfc3339_text(now.secs, now.nanos),
{
}

/// A moment is told by its RFC 3339 form.
pub proof fn law_moments_are_told_in_their_form(time: UtcTime, text: String)
    requires
        call_ensures(timestamp_at, (time,), text),
    ensures
        text@ == rfc3339_text(time.secs, time.nanos),
        text@.len() >= 25,
{
}

} // verus!
