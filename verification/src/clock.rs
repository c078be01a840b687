//! Wall time.

use std::time::{Duration, Instant};

use vstd::prelude::*;

verus! {

/// A point in time, as `std` has it.
#[verifier::external_type_specification]
#[verifier::external_body]
pub struct ExInstant(Instant);

/// `Instant::now` gives the current time. Nothing is claimed of it.
pub assume_specification[ Instant::now ]() -> (now: Instant);

/// `Instant::elapsed` gives the time that passed since then. Nothing is claimed of
/// it.
pub assume_specification[ Instant::elapsed ](start: &Instant) -> (passed: Duration);

} // verus!
