//! The time guard: a wall-clock checkpoint built once with a millisecond
//! budget and queried by the time-bounded beam search.  Only the clock
//! reading itself is outside work: the comparison that decides whether the
//! budget has elapsed is verified on plain millisecond values, so a zero
//! budget has provably always elapsed.

use vstd::prelude::*;

verus! {

#[verifier::external_type_specification]
#[verifier::external_body]
pub struct ExInstant(std::time::Instant);

/// Relies on `std::time::Instant::now`: the current instant of the monotonic
/// clock.  Nothing is claimed of its value.
#[verifier::external_body]
fn instant_now() -> std::time::Instant {
    std::time::Instant::now()
}

/// Relies on `std::time::Instant::elapsed`: the time passed since the given
/// instant was taken.  On the monotonic clock it never runs backwards, and
/// the subtraction saturates rather than panics.  Nothing is claimed of its
/// value.
#[verifier::external_body]
fn instant_elapsed(start: &std::time::Instant) -> std::time::Duration {
    start.elapsed()
}

/// Relies on `std::time::Duration::as_millis`: the whole milliseconds of the
/// duration.  Nothing is claimed of its value; the duration it reads came
/// from the clock.
#[verifier::external_body]
fn duration_as_millis(d: &std::time::Duration) -> u128 {
    d.as_millis()
}

/// The time guard's decision on plain values: whether the milliseconds read
/// from the clock have reached the budget.  A zero budget has always
/// elapsed, whatever the clock answered.
pub fn budget_elapsed(elapsed_millis: u128, budget_millis: u64) -> (r: bool)
    ensures
        r == (elapsed_millis >= budget_millis as u128),
        budget_millis == 0 ==> r,
{
    elapsed_millis >= budget_millis as u128
}

/// The wall-clock budget checkpoint: a start instant and a millisecond
/// budget, both fixed at construction; only read afterwards.
pub struct TimeKeeper {
    pub start_time: std::time::Instant,
    pub time_threshold_in_millis: u64,
}

impl TimeKeeper {
    /// Starts the budget: the guard trips once the given number of
    /// milliseconds has passed from this call.
    pub fn new(time_threshold_in_millis: u64) -> (t: Self)
        ensures
            t.time_threshold_in_millis == time_threshold_in_millis,
    {
        TimeKeeper { start_time: instant_now(), time_threshold_in_millis }
    }

    /// Whether the budget has elapsed since construction: the milliseconds
    /// elapsed on the clock, compared against the budget by the verified
    /// `budget_elapsed`.  How many milliseconds have passed only the clock
    /// knows, but a zero budget has always elapsed.
    pub fn is_timeover(&self) -> (r: bool)
        ensures
            self.time_threshold_in_millis == 0 ==> r,
    {
        let elapsed: std::time::Duration = instant_elapsed(&self.start_time);
        let elapsed_millis: u128 = duration_as_millis(&elapsed);
        budget_elapsed(elapsed_millis, self.time_threshold_in_millis)
    }
}

} // verus!
