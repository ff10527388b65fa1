use vstd::prelude::*;

verus! {

/// What chrono's RFC 2822 parser extracts from a date text: the instant as
/// seconds since the Unix epoch together with the timezone offset in seconds
/// east of UTC, or `None` when the text is not a valid RFC 2822 date.
/// The result depends on the characters of the text alone.
pub uninterp spec fn rfc2822_timestamp(s: Seq<char>) -> Option<(i64, i32)>;

/// A bound (in seconds since the Unix epoch) on the instants chrono can
/// represent: its calendar covers years within roughly +-262,000 of the
/// common era, which keeps every timestamp well under 10^16 seconds.
pub const TS_BOUND: i64 = 10_000_000_000_000_000;

/// Relies on chrono: `DateTime::parse_from_rfc2822` (the parsed value is a
/// function of the input text alone), `DateTime::timestamp` (seconds since
/// the Unix epoch) and `FixedOffset::local_minus_utc` (offset in seconds east
/// of UTC). chrono's calendar only represents years within about +-262,000 of
/// the common era, so a parsed timestamp stays within `TS_BOUND`.
#[verifier::external_body]
pub(crate) fn parse_rfc2822(s: &str) -> (r: Option<(i64, i32)>)
    ensures
        r == rfc2822_timestamp(s@),
        r matches Some(p) ==> -TS_BOUND <= p.0 <= TS_BOUND,
{
    match chrono::DateTime::parse_from_rfc2822(s) {
        Ok(dt) => Some((dt.timestamp(), dt.offset().local_minus_utc())),
        Err(_) => None,
    }
}

} // verus!
