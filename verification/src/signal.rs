//! What the threads of a search share and what the clock says: a stop flag and a count
//! of attempts, both atomics that are read and written without any ordering beyond
//! their own, and the time that has passed since the search began.

use std::sync::atomic::{AtomicBool, AtomicU64, Ordering};
use std::time::Instant;
use vstd::prelude::*;

verus! {

/// `std::time::Instant`, a reading of the clock. Nothing inside it is seen here.
#[verifier::external_type_specification]
#[verifier::external_body]
pub struct ExInstant(Instant);

/// `Instant::elapsed`: the milliseconds that have passed since `started`. It is a
/// reading of the clock, so nothing is stated of it.
#[verifier::external_body]
pub(crate) fn millis_since(started: &Instant) -> (millis: u128) {
    started.elapsed().as_millis()
}

/// Reads the stop flag. What comes back is what some thread last stored, so nothing is
/// known of it here.
pub(crate) fn stop_requested(stop: &AtomicBool) -> (requested: bool) {
    stop.load(Ordering::Relaxed)
}

/// Sets the stop flag, for every worker to see at its next step.
pub(crate) fn request_stop(stop: &AtomicBool) {
    stop.store(true, Ordering::Relaxed)
}

/// Counts one more hash attempt.
pub(crate) fn count_attempt(attempts: &AtomicU64) {
    let _ = attempts.fetch_add(1, Ordering::Relaxed);
}

/// Reads how many hash attempts have been counted so far.
pub(crate) fn attempts_so_far(attempts: &AtomicU64) -> (count: u64) {
    attempts.load(Ordering::Relaxed)
}

} // verus!
