//! A fixed-rate clock: time is gathered up and handed out in equal steps.
use crate::world::resource::Resource;
use std::time::Duration;
use vstd::prelude::*;

verus! {

/// What `Duration::as_nanos` returns for `d`: the whole nanoseconds it
/// spans.
pub uninterp spec fn nanos_of(d: Duration) -> u128;

/// The nanoseconds spanned by `Duration::MAX`: `u64::MAX` seconds and
/// 999 999 999 nanoseconds.
pub open spec fn max_nanos() -> int {
    u64::MAX as int * 1_000_000_000 + 999_999_999
}

/// Calls `Duration::checked_sub`: `a - b`, or `None` when `b` is longer
/// than `a`.
#[verifier::external_body]
fn duration_checked_sub(a: Duration, b: Duration) -> (r: Option<Duration>)
    ensures
        r is None <==> nanos_of(b) > nanos_of(a),
        r matches Some(d) ==> nanos_of(d) == nanos_of(a) - nanos_of(b),
{
    a.checked_sub(b)
}

/// Calls `Duration::checked_add`: `a + b`, or `None` when the sum is longer
/// than `Duration::MAX`.
#[verifier::external_body]
fn duration_checked_add(a: Duration, b: Duration) -> (r: Option<Duration>)
    ensures
        r is None <==> nanos_of(a) + nanos_of(b) > max_nanos(),
        r matches Some(d) ==> nanos_of(d) == nanos_of(a) + nanos_of(b),
{
    a.checked_add(b)
}

/// Calls `Duration::from_micros`: `micros` microseconds.
#[verifier::external_body]
fn duration_from_micros(micros: u64) -> (r: Duration)
    ensures
        nanos_of(r) == micros * 1000,
{
    Duration::from_micros(micros)
}

/// A clock that gathers elapsed time and hands it out in steps of a fixed
/// length.
pub struct FixedTime {
    pub timestep: Duration,
    accumulator: Duration,
}

impl FixedTime {
    /// The length of a step.
    pub closed spec fn step(&self) -> Duration {
        self.timestep
    }

    /// The time gathered and not handed out yet.
    pub closed spec fn gathered(&self) -> Duration {
        self.accumulator
    }

    /// A clock with steps of `timestep` that has gathered nothing yet.
    pub fn new(timestep: Duration) -> (r: FixedTime)
        ensures
            r.step() == timestep,
            nanos_of(r.gathered()) == 0,
    {
        FixedTime { timestep, accumulator: duration_from_micros(0) }
    }

    pub fn timestep(&self) -> (r: Duration)
        ensures
            r == self.step(),
    {
        self.timestep
    }

    pub fn accumulator(&self) -> (r: Duration)
        ensures
            r == self.gathered(),
    {
        self.accumulator
    }

    /// Whether `delta` more time fits in a `Duration` together with what
    /// was gathered.
    pub fn would_fit(&self, delta: Duration) -> (r: bool)
        ensures
            r == (nanos_of(self.gathered()) + nanos_of(delta) <= max_nanos()),
    {
        duration_checked_add(self.accumulator, delta).is_some()
    }

    /// Gathers `delta` more time; it must fit in a `Duration` together with
    /// what was gathered (adding panics otherwise).
    pub fn accumulate(&mut self, delta: Duration)
        requires
            nanos_of(old(self).gathered()) + nanos_of(delta) <= max_nanos(),
        ensures
            final(self).step() == old(self).step(),
            nanos_of(final(self).gathered()) == nanos_of(old(self).gathered()) + nanos_of(delta),
    {
        match duration_checked_add(self.accumulator, delta) {
            Some(total) => {
                self.accumulator = total;
            },
            None => {},
        }
    }

    /// Gathers `delta` more time when it fits in a `Duration` together with
    /// what was gathered, and says whether it did; otherwise nothing
    /// changes.
    pub fn try_accumulate(&mut self, delta: Duration) -> (r: bool)
        ensures
            r == (nanos_of(old(self).gathered()) + nanos_of(delta) <= max_nanos()),
            final(self).step() == old(self).step(),
            r ==> nanos_of(final(self).gathered()) == nanos_of(old(self).gathered()) + nanos_of(delta),
            !r ==> final(self).gathered() == old(self).gathered(),
    {
        match duration_checked_add(self.accumulator, delta) {
            Some(total) => {
                self.accumulator = total;
                true
            },
            None => false,
        }
    }

    /// Takes one step out of the gathered time, if at least a step's worth
    /// was gathered, and says whether it did.
    pub fn update(&mut self) -> (r: bool)
        ensures
            r == (nanos_of(old(self).step()) <= nanos_of(old(self).gathered())),
            final(self).step() == old(self).step(),
            r ==> nanos_of(final(self).gathered()) == nanos_of(old(self).gathered()) - nanos_of(
                old(self).step(),
            ),
            !r ==> final(self).gathered() == old(self).gathered(),
    {
        match duration_checked_sub(self.accumulator, self.timestep) {
            Some(rest) => {
                self.accumulator = rest;
                true
            },
            None => false,
        }
    }
}

impl Default for FixedTime {
    /// Steps of 15 625 microseconds, 64 a second.
    fn default() -> (r: FixedTime)
        ensures
            nanos_of(r.step()) == 15_625_000,
            nanos_of(r.gathered()) == 0,
    {
        FixedTime::new(duration_from_micros(15625))
    }
}

impl Resource for FixedTime {

}

} // verus!
