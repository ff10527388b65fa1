use vstd::prelude::*;
use crate::date::{parse_rfc2822, rfc2822_timestamp, TS_BOUND};

verus! {

/// One logged workout: a date given as RFC 2822 text together with a repeat
/// count. The parsed form of the date (instant and timezone offset) is kept
/// alongside the text, so that ordering and duration arithmetic are plain
/// integer operations.
pub struct Workout {
    date: String,
    repeats: u32,
    ts: i64,
    offset_secs: i32,
}

/// A date text that is not a valid RFC 2822 timestamp; carries the offending
/// text so a diagnostic can show it.
#[derive(Debug)]
pub struct DateError {
    pub date: String,
}

impl Workout {
    #[verifier::type_invariant]
    spec fn inv(self) -> bool {
        &&& rfc2822_timestamp(self.date@) == Some((self.ts, self.offset_secs))
        &&& -TS_BOUND <= self.ts <= TS_BOUND
    }

    /// The date text.
    pub closed spec fn spec_date(self) -> Seq<char> {
        self.date@
    }

    /// The repeat count.
    pub closed spec fn spec_repeats(self) -> u32 {
        self.repeats
    }

    /// The parsed instant of the date, in seconds since the Unix epoch.
    pub closed spec fn spec_ts(self) -> i64 {
        self.ts
    }

    /// The timezone offset of the date, in seconds east of UTC.
    pub closed spec fn spec_offset(self) -> i32 {
        self.offset_secs
    }

    /// The stored instant and offset are exactly what parsing the stored date
    /// text yields; this holds of every record.
    pub open spec fn date_consistent(self) -> bool {
        rfc2822_timestamp(self.spec_date()) == Some((self.spec_ts(), self.spec_offset()))
    }

    /// Builds a record from a date text and a repeat count. Succeeds exactly
    /// when the text is a valid RFC 2822 date; otherwise returns the
    /// offending text as a `DateError`.
    pub fn new(date: String, repeats: u32) -> (r: Result<Workout, DateError>)
        ensures
            r is Ok <==> rfc2822_timestamp(date@) is Some,
            r matches Ok(w) ==> {
                &&& w.spec_date() == date@
                &&& w.spec_repeats() == repeats
                &&& w.date_consistent()
            },
            r matches Err(e) ==> e.date@ == date@,
    {
        match parse_rfc2822(date.as_str()) {
            Some(p) => Ok(Workout { date, repeats, ts: p.0, offset_secs: p.1 }),
            None => Err(DateError { date }),
        }
    }

    pub fn get_repeats(&self) -> (r: u32)
        ensures
            r == self.spec_repeats(),
    {
        self.repeats
    }

    pub fn get_date(&self) -> (r: &str)
        ensures
            r@ == self.spec_date(),
    {
        self.date.as_str()
    }

    /// The parsed instant, in seconds since the Unix epoch. Every record's
    /// instant lies within chrono's representable range.
    pub fn timestamp_secs(&self) -> (r: i64)
        ensures
            r == self.spec_ts(),
            self.date_consistent(),
            -TS_BOUND <= r <= TS_BOUND,
    {
        proof {
            use_type_invariant(self);
        }
        self.ts
    }

    /// The timezone offset of the date, in seconds east of UTC.
    pub fn utc_offset_secs(&self) -> (r: i32)
        ensures
            r == self.spec_offset(),
    {
        self.offset_secs
    }

    /// The signed duration from `other`'s instant to `self`'s, in seconds
    /// (positive when `self` is the later record).
    pub fn difference(&self, other: &Workout) -> (d: i64)
        ensures
            d == self.spec_ts() - other.spec_ts(),
    {
        proof {
            use_type_invariant(self);
            use_type_invariant(other);
        }
        self.ts - other.ts
    }

    /// Records order by their parsed date, ascending; this is the comparison
    /// the sort uses.
    pub fn date_le(&self, other: &Workout) -> (r: bool)
        ensures
            r == (self.spec_ts() <= other.spec_ts()),
    {
        self.ts <= other.ts
    }
}

} // verus!
