use vstd::prelude::*;

verus! {

/// Whether a timer re-arms itself after completing.
#[derive(Clone, Copy, Debug, PartialEq, Eq, Structural)]
pub enum TimerMode {
    Once,
    Repeating,
}

/// Errors reported when a configuration value cannot be used.
#[derive(Clone, Copy, Debug, PartialEq, Eq, Structural)]
pub enum ConfigError {
    /// A timer was asked to run for a duration of zero.
    NonPositiveDuration,
}

/// An interval timer advanced by caller-supplied elapsed time (nanoseconds).
#[derive(Clone, Copy, Debug, PartialEq, Eq, Structural)]
pub struct Timer {
    pub duration: u64,
    pub elapsed: u64,
    pub mode: TimerMode,
    pub just_completed: bool,
}

impl Timer {
    /// A usable timer: positive duration; a repeating timer stays below its
    /// duration, a one-shot timer never passes it.
    pub open spec fn wf(self) -> bool {
        &&& self.duration > 0
        &&& match self.mode {
            TimerMode::Repeating => self.elapsed < self.duration,
            TimerMode::Once => self.elapsed <= self.duration,
        }
    }

    /// A one-shot timer that has reached its duration.
    pub open spec fn is_finished(self) -> bool {
        self.mode == TimerMode::Once && self.elapsed >= self.duration
    }

    /// The timer as `new` makes it.
    pub open spec fn fresh(duration: u64, mode: TimerMode) -> Timer {
        Timer { duration, elapsed: 0, mode, just_completed: false }
    }

    /// The timer after one tick of `delta` nanoseconds.
    pub open spec fn ticked(self, delta: nat) -> Timer {
        let total = self.elapsed + delta;
        match self.mode {
            TimerMode::Repeating => if total >= self.duration {
                Timer { elapsed: (total % (self.duration as int)) as u64, just_completed: true, ..self }
            } else {
                Timer { elapsed: total as u64, just_completed: false, ..self }
            },
            TimerMode::Once => if self.elapsed >= self.duration {
                Timer { just_completed: false, ..self }
            } else if total >= self.duration {
                Timer { elapsed: self.duration, just_completed: true, ..self }
            } else {
                Timer { elapsed: total as u64, just_completed: false, ..self }
            },
        }
    }

    /// Makes a timer of `duration` nanoseconds; a zero duration is refused.
    pub fn new(duration: u64, mode: TimerMode) -> (r: Result<Timer, ConfigError>)
        ensures
            duration == 0 <==> r == Err::<Timer, ConfigError>(ConfigError::NonPositiveDuration),
            duration > 0 ==> r == Ok::<Timer, ConfigError>(Timer::fresh(duration, mode)),
            r matches Ok(t) ==> t.wf(),
    {
        if duration == 0 {
            Err(ConfigError::NonPositiveDuration)
        } else {
            Ok(Timer { duration, elapsed: 0, mode, just_completed: false })
        }
    }

    /// Advances the timer by `delta` nanoseconds. A repeating timer carries
    /// its overshoot into the next period and signals at most once per tick;
    /// a one-shot timer stops at its duration and signals only on the tick
    /// that reaches it.
    pub fn tick(&mut self, delta: u64)
        requires
            old(self).wf(),
        ensures
            *final(self) == old(self).ticked(delta as nat),
            final(self).wf(),
    {
        let remaining = self.duration - self.elapsed;
        match self.mode {
            TimerMode::Repeating => {
                if delta >= remaining {
                    let over = delta - remaining;
                    proof {
                        let d = self.duration as int;
                        assert(self.elapsed + delta == over + d);
                        vstd::arithmetic::div_mod::lemma_mod_add_multiples_vanish(over as int, d);
                    }
                    self.elapsed = over % self.duration;
                    self.just_completed = true;
                } else {
                    self.elapsed = self.elapsed + delta;
                    self.just_completed = false;
                }
            },
            TimerMode::Once => {
                if remaining == 0 {
                    self.just_completed = false;
                } else if delta >= remaining {
                    self.elapsed = self.duration;
                    self.just_completed = true;
                } else {
                    self.elapsed = self.elapsed + delta;
                    self.just_completed = false;
                }
            },
        }
    }

    /// True only on the tick in which the timer completed.
    pub fn just_finished(&self) -> (r: bool)
        ensures
            r == self.just_completed,
    {
        self.just_completed
    }

    /// True once a one-shot timer has reached its duration.
    pub fn finished(&self) -> (r: bool)
        ensures
            r == self.is_finished(),
    {
        self.mode == TimerMode::Once && self.elapsed >= self.duration
    }
}

/// Total of a sequence of tick lengths.
pub open spec fn total(deltas: Seq<u64>) -> nat
    decreases deltas.len(),
{
    if deltas.len() == 0 {
        0
    } else {
        (deltas[0] + total(deltas.subrange(1, deltas.len() as int))) as nat
    }
}

/// The timer after ticking through `deltas` in order.
pub open spec fn run(t: Timer, deltas: Seq<u64>) -> Timer
    decreases deltas.len(),
{
    if deltas.len() == 0 {
        t
    } else {
        run(t.ticked(deltas[0] as nat), deltas.subrange(1, deltas.len() as int))
    }
}

/// How many of the ticks in `deltas` report a completion.
pub open spec fn completions(t: Timer, deltas: Seq<u64>) -> nat
    decreases deltas.len(),
{
    if deltas.len() == 0 {
        0
    } else {
        let t1 = t.ticked(deltas[0] as nat);
        (if t1.just_completed { 1nat } else { 0nat }) + completions(
            t1,
            deltas.subrange(1, deltas.len() as int),
        )
    }
}

/// A repeating timer whose ticks are each at most one period long reports
/// one completion for every whole period of accumulated time, and keeps the
/// remainder as its elapsed time.
pub proof fn lemma_repeating_counts_periods(t: Timer, deltas: Seq<u64>)
    requires
        t.wf(),
        t.mode == TimerMode::Repeating,
        forall|i: int| 0 <= i < deltas.len() ==> deltas[i] <= t.duration,
    ensures
        completions(t, deltas) == (t.elapsed + total(deltas)) / (t.duration as int),
        run(t, deltas).elapsed == (t.elapsed + total(deltas)) % (t.duration as int),
        run(t, deltas).wf(),
    decreases deltas.len(),
{
    let d = t.duration as int;
    if deltas.len() == 0 {
        vstd::arithmetic::div_mod::lemma_small_mod(t.elapsed as nat, t.duration as nat);
        assert(t.elapsed as int / d == 0) by (nonlinear_arith)
            requires 0 <= t.elapsed < d;
    } else {
        let rest = deltas.subrange(1, deltas.len() as int);
        let t1 = t.ticked(deltas[0] as nat);
        let x = t.elapsed + deltas[0];
        let r = total(rest);
        if x >= d {
            vstd::arithmetic::div_mod::lemma_mod_add_multiples_vanish(x - d, d);
            vstd::arithmetic::div_mod::lemma_small_mod((x - d) as nat, d as nat);
            assert(t1.elapsed == x - d);
        }
        assert(t1.wf());
        lemma_repeating_counts_periods(t1, rest);
        if x >= d {
            vstd::arithmetic::div_mod::lemma_div_plus_one(x - d + r, d);
            vstd::arithmetic::div_mod::lemma_mod_add_multiples_vanish(x - d + r, d);
        }
    }
}

/// Over ticks of at most one period each that add up to exactly `k` periods,
/// a fresh repeating timer reports a completion on exactly `k` ticks.
pub proof fn lemma_repeating_fires_k_times(duration: u64, deltas: Seq<u64>, k: nat)
    requires
        duration > 0,
        forall|i: int| 0 <= i < deltas.len() ==> deltas[i] <= duration,
        total(deltas) == k * duration,
    ensures
        completions(Timer::fresh(duration, TimerMode::Repeating), deltas) == k,
{
    lemma_repeating_counts_periods(Timer::fresh(duration, TimerMode::Repeating), deltas);
    vstd::arithmetic::div_mod::lemma_div_multiples_vanish(k as int, duration as int);
    assert((k * duration) as int == (duration as int) * (k as int)) by (nonlinear_arith);
}

/// A one-shot timer reports a completion on exactly one tick if the time
/// given to it reaches its duration and it had not finished before, on none
/// otherwise; once finished it stays finished.
pub proof fn lemma_once_completes_once(t: Timer, deltas: Seq<u64>)
    requires
        t.wf(),
        t.mode == TimerMode::Once,
    ensures
        completions(t, deltas) == (if !t.is_finished() && t.elapsed + total(deltas) >= t.duration {
            1nat
        } else {
            0nat
        }),
        t.is_finished() ==> run(t, deltas).is_finished(),
        run(t, deltas).wf(),
    decreases deltas.len(),
{
    if deltas.len() > 0 {
        let rest = deltas.subrange(1, deltas.len() as int);
        lemma_once_completes_once(t.ticked(deltas[0] as nat), rest);
    }
}

/// After a one-shot timer has finished, no sequence of ticks makes it report
/// a completion again.
pub proof fn lemma_once_silent_after_finish(t: Timer, deltas: Seq<u64>)
    requires
        t.wf(),
        t.is_finished(),
    ensures
        completions(t, deltas) == 0,
        run(t, deltas).is_finished(),
{
    lemma_once_completes_once(t, deltas);
}

} // verus!
