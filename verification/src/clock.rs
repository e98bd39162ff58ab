//! Points in time and the lengths between them.

use vstd::prelude::*;

use crate::config::model::Span;

verus! {

/// A point in time: seconds and nanoseconds since the Unix epoch, UTC.
#[derive(Debug, Clone, Copy, PartialEq, Eq, Structural)]
pub struct Stamp {
    pub secs: i64,
    pub nanos: u32,
}

/// A span as a count of nanoseconds.
pub open spec fn span_nanos(s: Span) -> int {
    s.secs * 1_000_000_000 + s.nanos
}

/// A stamp as a count of nanoseconds since the epoch.
pub open spec fn stamp_nanos(t: Stamp) -> int {
    t.secs * 1_000_000_000 + t.nanos
}

/// How long ago `then` was at `now`, or `None` if `then` is later.
pub open spec fn elapsed_spec(now: Stamp, then: Stamp) -> Option<int> {
    if stamp_nanos(now) >= stamp_nanos(then) {
        Some(stamp_nanos(now) - stamp_nanos(then))
    } else {
        None
    }
}

fn nanos_of_stamp(t: Stamp) -> (r: i128)
    ensures
        r == stamp_nanos(t),
{
    assert(t.secs * 1_000_000_000 >= i64::MIN * 1_000_000_000) by (nonlinear_arith)
        requires t.secs >= i64::MIN;
    assert(t.secs * 1_000_000_000 <= i64::MAX * 1_000_000_000) by (nonlinear_arith)
        requires t.secs <= i64::MAX;
    t.secs as i128 * 1_000_000_000 + t.nanos as i128
}

fn nanos_of_span(s: Span) -> (r: i128)
    ensures
        r == span_nanos(s),
{
    assert(s.secs * 1_000_000_000 <= u64::MAX * 1_000_000_000) by (nonlinear_arith)
        requires s.secs <= u64::MAX;
    s.secs as i128 * 1_000_000_000 + s.nanos as i128
}

/// Whether more than `limit` has passed from `then` to `now`; a `then` in the
/// future has not aged at all.
pub fn older_than(now: Stamp, then: Stamp, limit: Span) -> (r: bool)
    ensures
        r == (elapsed_spec(now, then) matches Some(age) && age > span_nanos(limit)),
{
    let a = nanos_of_stamp(now);
    let b = nanos_of_stamp(then);
    let l = nanos_of_span(limit);
    a >= b && a - b > l
}

/// Whether `a` comes after `b`.
pub fn later_than(a: Stamp, b: Stamp) -> (r: bool)
    ensures
        r == (stamp_nanos(a) > stamp_nanos(b)),
{
    nanos_of_stamp(a) > nanos_of_stamp(b)
}

/// Whole seconds in a count of nanoseconds, capped at what a `u64` holds.
pub open spec fn whole_seconds(n: int) -> u64 {
    if n / 1_000_000_000 > u64::MAX {
        u64::MAX
    } else {
        (n / 1_000_000_000) as u64
    }
}

/// How many whole seconds ago `then` was at `now`; `None` if it is later.
pub fn elapsed_seconds(now: Stamp, then: Stamp) -> (r: Option<u64>)
    ensures
        r == match elapsed_spec(now, then) {
            Some(n) => Some(whole_seconds(n)),
            None => None::<u64>,
        },
{
    let a = nanos_of_stamp(now);
    let b = nanos_of_stamp(then);
    if a < b {
        None
    } else {
        let secs = (a - b) / 1_000_000_000;
        if secs > u64::MAX as i128 {
            Some(u64::MAX)
        } else {
            Some(secs as u64)
        }
    }
}

/// `chrono::Utc::now()`, as its whole seconds since the epoch and the
/// nanoseconds past them. Nothing is claimed of the answer but what chrono
/// documents of the nanosecond part: it is below two seconds, a value of a
/// second or more standing for a leap second.
#[verifier::external_body]
fn utc_now() -> (r: (i64, u32))
    ensures
        r.1 < 2_000_000_000,
{
    let t = chrono::Utc::now();
    (t.timestamp(), t.timestamp_subsec_nanos())
}

/// The current time. A leap second's nanoseconds carry into the next
/// second, so the stamp names the same instant on the nanosecond scale.
pub(crate) fn now() -> (r: Stamp)
    ensures
        r.nanos < 1_000_000_000,
{
    let (secs, nanos) = utc_now();
    carry_leap(secs, nanos)
}

/// A whole-second count and a nanosecond part below two seconds as a
/// stamp: the same instant where it can be written, the last one otherwise.
pub fn carry_leap(secs: i64, nanos: u32) -> (r: Stamp)
    requires
        nanos < 2_000_000_000,
    ensures
        r.nanos < 1_000_000_000,
        nanos < 1_000_000_000 ==> r == (Stamp { secs, nanos }),
        nanos >= 1_000_000_000 && secs < i64::MAX ==> r == (Stamp { secs: (secs + 1) as i64, nanos: (nanos - 1_000_000_000) as u32 }),
        nanos >= 1_000_000_000 && secs == i64::MAX ==> r == (Stamp { secs, nanos: 999_999_999 }),
{
    if nanos < 1_000_000_000 {
        Stamp { secs, nanos }
    } else if secs < i64::MAX {
        Stamp { secs: secs + 1, nanos: nanos - 1_000_000_000 }
    } else {
        Stamp { secs, nanos: 999_999_999 }
    }
}

} // verus!
