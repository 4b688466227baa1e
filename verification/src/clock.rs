//! Trusted access to the process clock.  Instants and durations are opaque
//! to verification: nothing is promised about them, and no contract of the
//! library depends on their values.

use vstd::prelude::*;

verus! {

/// Declares std::time::Instant: an opaque point in time, carried in the
/// game state but never inspected by verified code.
#[verifier::external_type_specification]
#[verifier::external_body]
pub struct ExInstant(std::time::Instant);

/// Relies on std::time::Instant::now: an opaque reading of the monotonic
/// clock.
#[verifier::external_body]
pub(crate) fn instant_now() -> std::time::Instant {
    std::time::Instant::now()
}

/// Relies on std::time::Instant::elapsed: the opaque time span since the
/// instant was taken.
#[verifier::external_body]
pub(crate) fn instant_elapsed(since: &std::time::Instant) -> std::time::Duration {
    since.elapsed()
}

/// Relies on std::time::Duration::from_secs: here only to make the zero
/// duration, recorded when a game is lost on its first command.
#[verifier::external_body]
pub(crate) fn duration_zero() -> std::time::Duration {
    std::time::Duration::from_secs(0)
}

} // verus!
