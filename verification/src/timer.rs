//! Frame and cooldown timers. The state of a timer is held here as plain numbers of
//! nanoseconds; advancing it is done by `bevy::time::Timer`.

use vstd::prelude::*;

verus! {

/// Elapsed time and finished flag of a repeating timer of `duration` nanoseconds that had
/// `elapsed` nanoseconds and is advanced by `delta`: it finishes when the total reaches the
/// duration, and then wraps around it.
pub open spec fn repeating_tick(duration: u64, elapsed: u64, delta: u64) -> (u64, bool) {
    let total = elapsed + delta;
    if total >= duration {
        (if duration == 0 { 0u64 } else { (total % (duration as int)) as u64 }, true)
    } else {
        (total as u64, false)
    }
}

/// Elapsed time and finished flag of an unfinished one-shot timer of `duration` nanoseconds
/// that had `elapsed` nanoseconds and is advanced by `delta`: it finishes when the total
/// reaches the duration, and then stays at the duration.
pub open spec fn once_tick(duration: u64, elapsed: u64, delta: u64) -> (u64, bool) {
    let total = elapsed + delta;
    if total >= duration {
        (duration, true)
    } else {
        (total as u64, false)
    }
}

/// Advances a `bevy::time::Timer` built from plain values (by `Timer::new` with the given
/// mode, `set_elapsed` and `tick`) and reads back `elapsed` and `is_finished`. In bevy's
/// source `tick` adds the delta to the elapsed time; when the sum reaches the duration the
/// timer is finished, and its elapsed time becomes the sum's remainder by the duration for a
/// repeating timer (zero for a zero duration) or the duration for a one-shot timer.
#[verifier::external_body]
fn bevy_tick(duration: u64, elapsed: u64, repeating: bool, delta: u64) -> (r: (u64, bool))
    ensures
        r == if repeating {
            repeating_tick(duration, elapsed, delta)
        } else {
            once_tick(duration, elapsed, delta)
        },
{
    let mode = if repeating { bevy::time::TimerMode::Repeating } else { bevy::time::TimerMode::Once };
    let mut timer = bevy::time::Timer::new(std::time::Duration::from_nanos(duration), mode);
    timer.set_elapsed(std::time::Duration::from_nanos(elapsed));
    timer.tick(std::time::Duration::from_nanos(delta));
    (timer.elapsed().as_nanos() as u64, timer.is_finished())
}

/// A timer: its duration and elapsed time in nanoseconds, whether it repeats, and whether
/// it finished on its last tick (a one-shot timer stays finished).
#[derive(Clone, Copy, Debug, PartialEq, Eq, Structural)]
pub struct FrameTimer {
    pub duration: u64,
    pub elapsed: u64,
    pub repeating: bool,
    pub finished: bool,
}

impl FrameTimer {
    /// What one tick of `delta` nanoseconds makes of the timer.
    pub open spec fn after_tick(self, delta: u64) -> FrameTimer {
        if !self.repeating && self.finished {
            self
        } else {
            let r = if self.repeating {
                repeating_tick(self.duration, self.elapsed, delta)
            } else {
                once_tick(self.duration, self.elapsed, delta)
            };
            FrameTimer { elapsed: r.0, finished: r.1, ..self }
        }
    }

    /// A fresh timer of `duration` nanoseconds.
    pub open spec fn new_spec(duration: u64, repeating: bool) -> FrameTimer {
        FrameTimer { duration, elapsed: 0, repeating, finished: false }
    }

    /// The default timer: one-shot, of zero duration, not finished.
    pub open spec fn zero_spec() -> FrameTimer {
        FrameTimer::new_spec(0, false)
    }

    /// A fresh timer of `duration` nanoseconds.
    pub fn new(duration: u64, repeating: bool) -> (r: FrameTimer)
        ensures
            r == FrameTimer::new_spec(duration, repeating),
    {
        FrameTimer { duration, elapsed: 0, repeating, finished: false }
    }

    /// The default timer: one-shot, of zero duration, not finished.
    pub fn zero() -> (r: FrameTimer)
        ensures
            r == FrameTimer::zero_spec(),
    {
        FrameTimer::new(0, false)
    }

    /// Advances the timer by `delta` nanoseconds.
    pub fn tick(&mut self, delta: u64)
        ensures
            *final(self) == old(self).after_tick(delta),
    {
        if !self.repeating && self.finished {
            return;
        }
        let (elapsed, finished) = bevy_tick(self.duration, self.elapsed, self.repeating, delta);
        self.elapsed = elapsed;
        self.finished = finished;
    }

    /// Whether the timer finished on its last tick.
    pub fn is_finished(&self) -> (r: bool)
        ensures
            r == self.finished,
    {
        self.finished
    }
}

/// A one-shot timer that has finished stays finished, and ticking it changes nothing.
pub proof fn lemma_once_timer_stays_finished(t: FrameTimer, delta: u64)
    requires
        !t.repeating,
        t.finished,
    ensures
        t.after_tick(delta) == t,
{
}

/// A repeating timer with a non-zero duration always has less elapsed time than its
/// duration after a tick: it wraps around.
pub proof fn lemma_repeating_timer_wraps(t: FrameTimer, delta: u64)
    requires
        t.repeating,
        t.duration > 0,
    ensures
        t.after_tick(delta).elapsed < t.duration,
        t.after_tick(delta).finished <==> t.elapsed + delta >= t.duration,
{
}

} // verus!
