//! Instants in time.
//!
//! The `time` crate reads the two notations the slicer accepts. What the
//! slicer keeps of an instant is its distance from the Unix epoch, which is
//! all that ordering two instants needs.

use vstd::prelude::*;

verus! {

/// An instant, as nanoseconds since 1970-01-01T00:00:00Z.
#[derive(Debug, Copy, Clone, PartialEq, Eq, Structural)]
pub struct Timestamp {
    pub nanos: i128,
}

/// The instant that `time` reads from `text` as RFC 3339, in nanoseconds
/// since the Unix epoch; `None` where it rejects the text.
pub uninterp spec fn rfc3339_nanos(text: Seq<char>) -> Option<i128>;

/// The instant that `time` reads from `text` under the format description
/// `format`, taken as UTC, in nanoseconds since the Unix epoch; `None` where
/// it rejects the description or the text.
pub uninterp spec fn plain_utc_nanos(text: Seq<char>, format: Seq<char>) -> Option<i128>;

/// The description of the notation without an offset.
pub open spec fn plain_format() -> Seq<char> {
    "[year]-[month]-[day] [hour]:[minute]:[second]"@
}

/// The instant that `text` denotes: read as RFC 3339 first, then as a date
/// and a time of day in UTC.
pub open spec fn instant_of(text: Seq<char>) -> Option<Timestamp> {
    match rfc3339_nanos(text) {
        Some(n) => Some(Timestamp { nanos: n }),
        None => match plain_utc_nanos(text, plain_format()) {
            Some(n) => Some(Timestamp { nanos: n }),
            None => None,
        },
    }
}

/// Calls `time::OffsetDateTime::parse` with the well-known RFC 3339 format
/// and takes `unix_timestamp_nanos` of what it returns. The outcome depends
/// on the text alone.
#[verifier::external_body]
fn rfc3339_to_nanos(s: &str) -> (r: Option<i128>)
    ensures
        r == rfc3339_nanos(s@),
{
    match time::OffsetDateTime::parse(s, &time::format_description::well_known::Rfc3339) {
        Ok(t) => Some(t.unix_timestamp_nanos()),
        Err(_) => None,
    }
}

/// Has `time::format_description::parse_borrowed` read `format`, calls
/// `time::PrimitiveDateTime::parse` with it, and takes
/// `unix_timestamp_nanos` of the result at offset zero. The outcome depends
/// on the two texts alone.
#[verifier::external_body]
fn plain_utc_to_nanos(s: &str, format: &str) -> (r: Option<i128>)
    ensures
        r == plain_utc_nanos(s@, format@),
{
    let items = time::format_description::parse_borrowed::<1>(format).ok()?;
    match time::PrimitiveDateTime::parse(s, &items) {
        Ok(t) => Some(t.assume_utc().unix_timestamp_nanos()),
        Err(_) => None,
    }
}

impl Timestamp {
    /// Reads an RFC 3339 instant.
    pub fn parse_rfc3339(s: &str) -> (r: Option<Timestamp>)
        ensures
            r == match rfc3339_nanos(s@) {
                Some(n) => Some(Timestamp { nanos: n }),
                None => None,
            },
    {
        match rfc3339_to_nanos(s) {
            Some(n) => Some(Timestamp { nanos: n }),
            None => None,
        }
    }

    /// Reads an instant in either notation.
    pub fn parse(s: &str) -> (r: Option<Timestamp>)
        ensures
            r == instant_of(s@),
    {
        match rfc3339_to_nanos(s) {
            Some(n) => Some(Timestamp { nanos: n }),
            None => match plain_utc_to_nanos(s, "[year]-[month]-[day] [hour]:[minute]:[second]") {
                Some(n) => Some(Timestamp { nanos: n }),
                None => None,
            },
        }
    }

    /// Whether this instant lies within the two inclusive bounds; a bound
    /// that is absent does not constrain.
    pub fn within(self, since: Option<Timestamp>, until: Option<Timestamp>) -> (r: bool)
        ensures
            r == within(self, since, until),
    {
        let after = match since {
            Some(s) => s.nanos <= self.nanos,
            None => true,
        };
        let before = match until {
            Some(u) => self.nanos <= u.nanos,
            None => true,
        };
        after && before
    }
}

/// Whether `at` lies within the two inclusive bounds.
pub open spec fn within(at: Timestamp, since: Option<Timestamp>, until: Option<Timestamp>) -> bool {
    &&& since matches Some(s) ==> s.nanos <= at.nanos
    &&& until matches Some(u) ==> at.nanos <= u.nanos
}

} // verus!
