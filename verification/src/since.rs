//! Parsing the retention threshold from its human-readable duration text.

use vstd::prelude::*;

verus! {

/// The duration, in whole seconds, that the human-readable duration grammar
/// assigns to a string, or nothing when the string is not a valid duration.
pub uninterp spec fn human_duration_secs(s: Seq<char>) -> Option<u64>;

/// Relies on humantime's duration parser (`str::parse::<humantime::Duration>`,
/// which is humantime::parse_duration): the result is a function of the
/// string alone, reported here in whole seconds.
#[verifier::external_body]
fn parse_human_duration(s: &str) -> (r: Option<u64>)
    ensures
        r == human_duration_secs(s@),
{
    match s.parse::<humantime::Duration>() {
        Ok(d) => Some(d.as_secs()),
        Err(_) => None,
    }
}

/// Parses the retention threshold. Returns the threshold in seconds, or
/// nothing when the text is not a valid duration or its seconds do not fit a
/// signed count — a fatal configuration failure for the caller to report.
pub fn parse_since(s: &str) -> (r: Option<i64>)
    ensures
        match human_duration_secs(s@) {
            Some(n) => if n <= i64::MAX as u64 {
                r == Some(n as i64)
            } else {
                r is None
            },
            None => r is None,
        },
{
    match parse_human_duration(s) {
        Some(n) => {
            if n <= i64::MAX as u64 {
                Some(n as i64)
            } else {
                None
            }
        },
        None => None,
    }
}

} // verus!
