//! The wall clock that bounds a search.
use vstd::prelude::*;
use std::time::{Duration, Instant};

verus! {

#[verifier::external_type_specification]
#[verifier::external_body]
pub struct ExInstant(Instant);

/// Relies on std's `Instant::now`: the current instant; nothing is known
/// of its value.
#[verifier::external_body]
pub(crate) fn now() -> (r: Instant) {
    Instant::now()
}

/// Relies on std's `Instant::elapsed`: the time since `start`.
#[verifier::external_body]
pub(crate) fn elapsed(start: &Instant) -> (r: Duration) {
    start.elapsed()
}

/// Relies on std's `Duration::as_millis`: the whole milliseconds.
#[verifier::external_body]
pub(crate) fn as_millis(d: &Duration) -> (r: u128) {
    d.as_millis()
}

} // verus!
