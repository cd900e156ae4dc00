//! The time gate consulted by the construction phase: a wall-clock budget in
//! whole seconds.  The clock is outside the model, so nothing is stated of
//! the query's outcome; construction states what holds either way.

use vstd::prelude::*;

verus! {

/// Declares std's `Instant` so that it can stand in fields and signatures;
/// its values are opaque to the verifier.
#[verifier::external_type_specification]
#[verifier::external_body]
pub struct ExInstant(std::time::Instant);

/// Relies on std's `Instant::elapsed`: the time since `t`, as a `Duration`.
/// The result depends on the clock, so nothing is claimed of it.
pub assume_specification[ std::time::Instant::elapsed ](t: &std::time::Instant) -> (r: core::time::Duration);

/// Relies on std's `Duration::as_secs`: the whole seconds of the duration.
pub assume_specification[ core::time::Duration::as_secs ](d: &core::time::Duration) -> (r: u64);

/// Wall-clock budget: a start instant and a threshold in whole seconds.
pub struct TimeKeeper {
    pub start_time: std::time::Instant,
    pub time_threshold_seconds: u64,
}

/// Whether a number of elapsed whole seconds exhausts the configured
/// budget: true exactly when it reaches the threshold.
pub fn budget_reached(elapsed_secs: u64, threshold: u64) -> (r: bool)
    ensures
        r == (elapsed_secs >= threshold),
{
    elapsed_secs >= threshold
}

impl TimeKeeper {
    /// Has the configured number of whole seconds elapsed since the start
    /// instant?  What the clock reads depends on the moment of the call, so
    /// nothing is stated here; the decision over that reading is
    /// `budget_reached`, and callers state what holds of either answer.
    pub fn is_time_over(&self) -> bool {
        let diff: core::time::Duration = self.start_time.elapsed();
        budget_reached(diff.as_secs(), self.time_threshold_seconds)
    }
}

} // verus!
