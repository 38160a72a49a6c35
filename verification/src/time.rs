//! Modification times.

use std::time::SystemTime;
use vstd::prelude::*;

verus! {

/// `std::time::SystemTime`: a point in time, carried as it is.
#[verifier::external_type_specification]
#[verifier::external_body]
pub struct ExSystemTime(std::time::SystemTime);

/// The time a number of seconds after the Unix epoch.
pub uninterp spec fn epoch_plus(secs: u32) -> SystemTime;

/// `SystemTime::UNIX_EPOCH + Duration`: the time so many seconds after the Unix epoch.
#[verifier::external_body]
pub(crate) fn unix_time(secs: u32) -> (r: SystemTime)
    ensures
        r == epoch_plus(secs),
{
    SystemTime::UNIX_EPOCH + std::time::Duration::from_secs(secs as u64)
}

/// `SystemTime::now`: the time at which it is called, of which nothing is known.
#[verifier::external_body]
pub(crate) fn time_now() -> (r: SystemTime) {
    SystemTime::now()
}

/// The time that `chrono::DateTime::parse_from_rfc3339` reads off a text, where it is one.
pub uninterp spec fn rfc3339_time(s: Seq<char>) -> Option<SystemTime>;

/// `chrono::DateTime::parse_from_rfc3339`: the time that a text in the format of RFC 3339 names,
/// as a `SystemTime`, and nothing for any other text.
#[verifier::external_body]
pub(crate) fn parse_rfc3339(s: &str) -> (r: Option<SystemTime>)
    ensures
        r == rfc3339_time(s@),
{
    chrono::DateTime::parse_from_rfc3339(s).ok().map(SystemTime::from)
}

} // verus!
