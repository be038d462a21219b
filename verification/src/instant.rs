//! Instants, by which lists are ordered with the newest first.

use vstd::prelude::*;

use crate::ranking::Rank;

verus! {

/// The instant that an RFC 3339 text denotes: seconds since the unix epoch,
/// and nanoseconds into the second. A leap second counts as more than one
/// second's worth of nanoseconds.
pub uninterp spec fn rfc3339_instant(text: Seq<char>) -> Option<(i64, u32)>;

/// `chrono::DateTime::parse_from_rfc3339`, then the instant in UTC, which
/// `rfc3339_instant` names; `None` where the text is no RFC 3339 time. Instants
/// are ordered as the seconds and then the nanoseconds are.
#[verifier::external_body]
pub(crate) fn parse_instant(text: &str) -> (r: Option<(i64, u32)>)
    ensures
        r == rfc3339_instant(text@),
{
    match chrono::DateTime::parse_from_rfc3339(text) {
        Ok(time) => Some((time.timestamp(), time.timestamp_subsec_nanos())),
        Err(_) => None,
    }
}

/// The first second of the calendar, which begins in the year -262143.
pub const FIRST_SECOND: i64 = -8334601228800;

/// The last second of the calendar, which ends with the year 262142.
pub const LAST_SECOND: i64 = 8210266876799;

/// Whether an instant lies within the calendar, and within its second.
pub open spec fn in_calendar(at: (i64, u32)) -> bool {
    FIRST_SECOND <= at.0 <= LAST_SECOND && at.1 < 1_000_000_000
}

/// The RFC 3339 text of an instant in UTC.
pub uninterp spec fn instant_text(secs: i64, nanos: u32) -> Seq<char>;

/// `chrono::DateTime::from_timestamp`, then `to_rfc3339`: the text that
/// `instant_text` names. An instant outside the calendar has none and is left
/// out.
#[verifier::external_body]
pub(crate) fn format_instant(secs: i64, nanos: u32) -> (r: String)
    requires
        in_calendar((secs, nanos)),
    ensures
        r@ == instant_text(secs, nanos),
{
    chrono::DateTime::from_timestamp(secs, nanos).unwrap().to_rfc3339()
}

/// Whether `a` is later than `b`. A missing instant is earlier than any other.
pub open spec fn later(a: Option<(i64, u32)>, b: Option<(i64, u32)>) -> bool {
    match (a, b) {
        (None, _) => false,
        (Some(_), None) => true,
        (Some((s, n)), Some((t, m))) => s > t || (s == t && n > m),
    }
}

/// An instant that may be missing, as a rank: the later one is ahead.
#[derive(Debug, Clone, Copy)]
pub struct Instant {
    pub at: Option<(i64, u32)>,
}

impl View for Instant {
    type V = Option<(i64, u32)>;

    open spec fn view(&self) -> Option<(i64, u32)> {
        self.at
    }
}

impl Rank for Instant {
    open spec fn ahead(a: Option<(i64, u32)>, b: Option<(i64, u32)>) -> bool {
        later(a, b)
    }

    proof fn is_total_order() {
    }

    fn is_ahead(&self, other: &Instant) -> (r: bool) {
        match (self.at, other.at) {
            (None, _) => false,
            (Some(_), None) => true,
            (Some((s, n)), Some((t, m))) => s > t || (s == t && n > m),
        }
    }
}

/// Of two instants in different seconds the one with the greater number of
/// seconds is later, whatever the nanoseconds; within one second the greater
/// number of nanoseconds is. A known instant is later than a missing one.
pub proof fn later_instants_have_more_seconds(a: (i64, u32), b: (i64, u32))
    ensures
        a.0 > b.0 ==> later(Some(a), Some(b)) && !later(Some(b), Some(a)),
        a.0 == b.0 ==> (later(Some(a), Some(b)) <==> a.1 > b.1),
        later(Some(a), None),
        !later(None, Some(a)),
        !later(None, None),
{
}

/// Counted in nanoseconds from the epoch, the later instant is the greater
/// number.
pub proof fn later_instants_are_greater(a: (i64, u32), b: (i64, u32))
    requires
        a.1 < 1_000_000_000,
        b.1 < 1_000_000_000,
    ensures
        later(Some(a), Some(b)) <==> a.0 * 1_000_000_000 + a.1 > b.0 * 1_000_000_000 + b.1,
{
}

} // verus!
