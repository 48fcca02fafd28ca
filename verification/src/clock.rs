//! The time at which a text is made, as the line of a Markdown text tells it.

use vstd::prelude::*;

verus! {

/// What stands for the time where there is none to tell.
pub open spec fn no_time() -> Seq<char> {
    "unknown"@
}

/// What `chrono` writes for the time that lies `seconds` seconds after the
/// start of 1970 in UTC, as year-month-day hour:minute:second and `UTC`;
/// none where `chrono` has no such time or cannot write it.
pub uninterp spec fn utc_shown(seconds: int) -> Option<Seq<char>>;

/// The text for the time at which a text is made, given the seconds that the
/// clock tells since the start of 1970, if it tells any: what `chrono`
/// writes for them, and `unknown` where the clock tells none, or more than
/// `chrono` takes, or `chrono` has no such time.
pub open spec fn made_text(seconds: Option<u64>) -> Seq<char> {
    match seconds {
        Some(s) => if s <= i64::MAX {
            match utc_shown(s as int) {
                Some(t) => t,
                None => no_time(),
            }
        } else {
            no_time()
        },
        None => no_time(),
    }
}

/// The view of an optional string.
pub open spec fn shown(s: Option<String>) -> Option<Seq<char>> {
    match s {
        Some(x) => Some(x@),
        None => None,
    }
}

/// A time of the system clock, of which nothing is seen.
#[verifier::external_type_specification]
#[verifier::external_body]
pub struct ExSystemTime(std::time::SystemTime);

/// `std::time::SystemTime::now`: the time that the system clock tells.
/// Nothing is promised of it.
#[verifier::external_body]
fn system_time() -> (r: std::time::SystemTime) {
    std::time::SystemTime::now()
}

/// `std::time::SystemTime::duration_since` the start of 1970, in whole
/// seconds: it gives an error, here none, for a time before that start.
/// Nothing is promised of the number.
#[verifier::external_body]
fn seconds_since_1970(at: std::time::SystemTime) -> (r: Option<u64>) {
    match at.duration_since(std::time::UNIX_EPOCH) {
        Ok(since) => Some(since.as_secs()),
        Err(_) => None,
    }
}

/// The whole seconds that the system clock tells since the start of 1970,
/// none where the clock stands before it.
pub(crate) fn clock_seconds() -> (r: Option<u64>) {
    seconds_since_1970(system_time())
}

/// `chrono::DateTime::from_timestamp`, which gives none for seconds out of
/// its range, then `DateTime::format` and `DelayedFormat::write_to`, which
/// gives an error where it cannot write. The contract only names the result.
#[verifier::external_body]
fn utc_text(seconds: i64) -> (r: Option<String>)
    ensures
        shown(r) == utc_shown(seconds as int),
{
    let at = match chrono::DateTime::from_timestamp(seconds, 0) {
        Some(at) => at,
        None => return None,
    };
    let mut text = String::new();
    match at.format("%Y-%m-%d %H:%M:%S UTC").write_to(&mut text) {
        Ok(_) => Some(text),
        Err(_) => None,
    }
}

/// Writes the time at which a text is made, given the seconds that the
/// clock tells since the start of 1970, if it tells any.
pub fn made_at(seconds: Option<u64>) -> (r: String)
    ensures
        r@ == made_text(seconds),
{
    let text: Option<String> = match seconds {
        Some(s) => if s <= i64::MAX as u64 {
            utc_text(s as i64)
        } else {
            None
        },
        None => None,
    };
    match text {
        Some(t) => t,
        None => "unknown".to_owned(),
    }
}

} // verus!
