//! The wall clock.

use vstd::prelude::*;

verus! {

/// The time now, in whole seconds since the Unix epoch: the reading of
/// `std::time::SystemTime::now`, turned into a `chrono::DateTime<Utc>` by
/// chrono's `From<SystemTime>` and read through `DateTime::timestamp`. A clock
/// that stands before the epoch gives a negative number. Not verified, and
/// nothing is claimed of the value, which is the machine's: two readings may
/// differ either way.
#[verifier::external_body]
pub(crate) fn unix_now() -> i64 {
    chrono::DateTime::<chrono::Utc>::from(std::time::SystemTime::now()).timestamp()
}

} // verus!
