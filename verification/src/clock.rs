//! Readings of the wall clock. Nothing is claimed of what the clock returns:
//! whatever depends on it is stated for every reading. A length of time is
//! measured in whole nanoseconds.

use std::time::{Duration, Instant};
use vstd::prelude::*;

verus! {

#[verifier::external_type_specification]
#[verifier::external_body]
pub struct ExInstant(Instant);

/// Calls `Instant::now`. The reading is left unspecified.
#[verifier::external_body]
pub(crate) fn now() -> Instant {
    Instant::now()
}

/// Calls `Instant::elapsed`: the time that has passed since `since` was read.
/// The result is left unspecified.
#[verifier::external_body]
pub(crate) fn elapsed(since: &Instant) -> Duration {
    since.elapsed()
}

/// The whole nanoseconds that a length of time holds, as `Duration::as_nanos` counts them.
pub uninterp spec fn nanos_in(d: Duration) -> u128;

/// Calls `Duration::as_nanos`, which returns the total number of whole
/// nanoseconds in `d`. That number depends on `d` alone; it goes by the name
/// `nanos_in(d)`.
#[verifier::external_body]
pub(crate) fn whole_nanos(d: &Duration) -> (r: u128)
    ensures
        r == nanos_in(*d),
{
    d.as_nanos()
}

} // verus!
