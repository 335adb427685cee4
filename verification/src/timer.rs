//! Rune timers: a delay or an interval measured in nanoseconds, advanced by frame deltas.
//!
//! A timer is held as plain values; advancing it is done by Bevy's own `Timer`, rebuilt
//! from those values for each tick.

use vstd::prelude::*;

verus! {

/// Whether a timer restarts by itself once it finishes.
#[derive(Clone, Copy, Debug, PartialEq, Eq, Structural)]
pub enum RuneTimerMode {
    Once,
    Repeating,
}

/// Elapsed time after one tick of an unfinished Bevy timer with the given duration,
/// elapsed time and mode, ticked by `delta` (all in nanoseconds).
pub open spec fn ticked_elapsed(duration: u64, elapsed: u64, mode: RuneTimerMode, delta: u64) -> int {
    let total = elapsed + delta;
    if total < duration {
        total
    } else if mode is Once {
        duration as int
    } else if duration == 0 {
        0
    } else {
        total % (duration as int)
    }
}

/// Whether one tick of an unfinished Bevy timer reports `just_finished`.
///
/// A repeating timer counts how many whole durations passed in the tick and keeps that count
/// in a `u32`; the tick reports a finish when that count, taken modulo 2^32, is not zero.
pub open spec fn ticked_finished(duration: u64, elapsed: u64, mode: RuneTimerMode, delta: u64) -> bool {
    let total = elapsed + delta;
    if total < duration {
        false
    } else if mode is Once || duration == 0 {
        true
    } else {
        (total / (duration as int)) % 0x1_0000_0000 != 0
    }
}

/// Ticks `bevy::time::Timer`: a timer made by `Timer::new` with the given duration and mode,
/// set to the given elapsed time with `Timer::set_elapsed`, is advanced by `Timer::tick`, and
/// `Timer::elapsed` and `Timer::just_finished` are read back.
///
/// The contract restates bevy_time's `Timer::tick` for a timer that is neither paused nor
/// finished (as a freshly built one is): the stopwatch adds `delta`; at or past the duration a
/// one-shot timer stops at its duration and reports one finish, and a repeating one keeps the
/// remainder and reports the number of whole durations truncated to `u32` (all of them, with
/// the remainder zero, when the duration is zero).
#[verifier::external_body]
fn tick_bevy_timer(duration_nanos: u64, elapsed_nanos: u64, mode: RuneTimerMode, delta_nanos: u64) -> (r: (u64, bool))
    ensures
        r.0 == ticked_elapsed(duration_nanos, elapsed_nanos, mode, delta_nanos),
        r.1 == ticked_finished(duration_nanos, elapsed_nanos, mode, delta_nanos),
{
    let bevy_mode = match mode {
        RuneTimerMode::Once => bevy::time::TimerMode::Once,
        RuneTimerMode::Repeating => bevy::time::TimerMode::Repeating,
    };
    let mut timer = bevy::time::Timer::new(std::time::Duration::from_nanos(duration_nanos), bevy_mode);
    timer.set_elapsed(std::time::Duration::from_nanos(elapsed_nanos));
    timer.tick(std::time::Duration::from_nanos(delta_nanos));
    (timer.elapsed().as_nanos() as u64, timer.just_finished())
}

/// A countdown toward a rune's next invocation.
#[derive(Clone, Copy, Debug, PartialEq, Eq, Structural)]
pub struct RuneTimer {
    /// Length of the countdown, in nanoseconds.
    pub duration_nanos: u64,
    /// Time already counted, in nanoseconds.
    pub elapsed_nanos: u64,
    /// Whether the timer restarts by itself.
    pub mode: RuneTimerMode,
}

impl RuneTimer {
    /// A fresh timer with nothing elapsed.
    pub fn new(duration_nanos: u64, mode: RuneTimerMode) -> (t: RuneTimer)
        ensures
            t == (RuneTimer { duration_nanos, elapsed_nanos: 0, mode }),
    {
        RuneTimer { duration_nanos, elapsed_nanos: 0, mode }
    }

    /// Whether a tick of `delta` nanoseconds finishes this timer.
    pub open spec fn finishes(self, delta: u64) -> bool {
        ticked_finished(self.duration_nanos, self.elapsed_nanos, self.mode, delta)
    }

    /// The timer after a tick of `delta` nanoseconds.
    pub open spec fn after_tick(self, delta: u64) -> RuneTimer {
        RuneTimer {
            elapsed_nanos: ticked_elapsed(self.duration_nanos, self.elapsed_nanos, self.mode, delta) as u64,
            ..self
        }
    }

    /// Advances the timer by `delta_nanos` and says whether it finished during this tick.
    pub fn tick(&mut self, delta_nanos: u64) -> (finished: bool)
        ensures
            finished == old(self).finishes(delta_nanos),
            *final(self) == old(self).after_tick(delta_nanos),
    {
        let (elapsed, finished) = tick_bevy_timer(self.duration_nanos, self.elapsed_nanos, self.mode, delta_nanos);
        self.elapsed_nanos = elapsed;
        finished
    }

    /// Restarts the countdown from zero.
    pub fn reset(&mut self)
        ensures
            *final(self) == (RuneTimer { elapsed_nanos: 0, ..*old(self) }),
    {
        self.elapsed_nanos = 0;
    }
}

} // verus!
