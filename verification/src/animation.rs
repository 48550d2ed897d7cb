//! The animation clock: a start timestamp, a duration, the payload being
//! animated (typically the move trace of a step) and the grid to adopt once
//! the animation completes.
//!
//! Mapping the clock to an eased progress fraction is floating-point work
//! and lives with the rendering layer; this module owns the verified state.

use vstd::prelude::*;

verus! {

use crate::game::Game;

/// How long one step's animation runs by default, in milliseconds; the
/// actual length usually comes from configuration.
pub fn default_duration_ms() -> (d: u64)
    ensures
        d == 160,
{
    160
}

/// std::time::Instant, declared so clocks can hold one; its values are
/// opaque to the verifier.
#[verifier::external_type_specification]
#[verifier::external_body]
pub struct ExInstant(std::time::Instant);

/// Relies on std::time::Instant::now: a reading of the monotonic clock.
/// Nothing is promised of the reading.
#[verifier::external_body]
fn now() -> std::time::Instant {
    std::time::Instant::now()
}

/// A step's animation in flight.
#[derive(Debug)]
pub struct Animation<T> {
    /// When the clock started.
    pub start: std::time::Instant,
    /// How long the animation runs.
    pub duration: core::time::Duration,
    /// What is being animated.
    pub inner: T,
    /// The grid to adopt when the animation completes.
    pub result: Game,
}

impl<T> Animation<T> {
    /// Start a clock now over `inner`, adopting `result` on completion.
    pub fn new(duration: core::time::Duration, inner: T, result: Game) -> (a: Self)
        ensures
            a.duration == duration,
            a.inner == inner,
            a.result == result,
    {
        Animation { start: now(), duration, inner, result }
    }

    /// When the clock started.
    pub fn start(&self) -> (t: std::time::Instant)
        ensures
            t == self.start,
    {
        self.start
    }

    /// How long the animation runs.
    pub fn duration(&self) -> (d: core::time::Duration)
        ensures
            d == self.duration,
    {
        self.duration
    }
}

} // verus!
