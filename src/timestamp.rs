//! Calendar date and time of day, as plain numbers.
use vstd::prelude::*;

verus! {

/// A date and time of day without time zone.
#[derive(Debug, Clone, Copy, PartialEq, Eq, Structural)]
pub struct Timestamp {
    pub year: i32,
    pub month: u32,
    pub day: u32,
    pub hour: u32,
    pub minute: u32,
    pub second: u32,
}

/// The value a timestamp holds until one is read: 1970-01-01 00:00:00, which
/// stands for "unknown".
pub open spec fn unknown_time() -> Timestamp {
    Timestamp { year: 1970, month: 1, day: 1, hour: 0, minute: 0, second: 0 }
}

impl Default for Timestamp {
    fn default() -> (r: Timestamp)
        ensures
            r == unknown_time(),
    {
        Timestamp { year: 1970, month: 1, day: 1, hour: 0, minute: 0, second: 0 }
    }
}

/// What `chrono::NaiveDateTime::parse_from_str` reads from `s` with the
/// format `fmt`, if it accepts it.
pub uninterp spec fn parsed_date_time(s: Seq<char>, fmt: Seq<char>) -> Option<Timestamp>;

/// Relies on `chrono::NaiveDateTime::parse_from_str`: the result depends on
/// the text and the format alone.
#[verifier::external_body]
pub(crate) fn parse_date_time(s: &str, fmt: &str) -> (r: Option<Timestamp>)
    ensures
        r == parsed_date_time(s@, fmt@),
{
    match chrono::NaiveDateTime::parse_from_str(s, fmt) {
        Ok(t) => Some(
            Timestamp {
                year: chrono::Datelike::year(&t),
                month: chrono::Datelike::month(&t),
                day: chrono::Datelike::day(&t),
                hour: chrono::Timelike::hour(&t),
                minute: chrono::Timelike::minute(&t),
                second: chrono::Timelike::second(&t),
            },
        ),
        Err(_) => None,
    }
}

} // verus!
