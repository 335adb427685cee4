//! Cast contexts, pending runes and the per-caster schedule of in-flight spells.

use vstd::prelude::*;

use crate::timer::{RuneTimer, RuneTimerMode};

verus! {

/// The entities a spell is cast by and at. `E` is the engine's entity handle.
#[derive(Clone, Debug)]
pub struct CastContext<E> {
    /// The entity that is casting the spell.
    pub caster: E,
    /// Every entity targeted by the cast; empty for a self-cast.
    pub targets: Vec<E>,
}

/// A cast context as a mathematical value: the caster and the sequence of targets.
pub type CastContextView<E> = (E, Seq<E>);

impl<E> View for CastContext<E> {
    type V = CastContextView<E>;

    open spec fn view(&self) -> CastContextView<E> {
        (self.caster, self.targets@)
    }
}

/// The targets whose flag in `keep` is set, in order.
pub open spec fn kept_targets<E>(targets: Seq<E>, keep: Seq<bool>) -> Seq<E>
    decreases targets.len(),
{
    if targets.len() == 0 {
        Seq::empty()
    } else {
        let prev = kept_targets(targets.drop_last(), keep);
        if keep[targets.len() - 1] {
            prev.push(targets.last())
        } else {
            prev
        }
    }
}

/// Copies the elements of `v` into a new vector.
pub fn copy_vec<E: Copy>(v: &Vec<E>) -> (r: Vec<E>)
    ensures
        r@ == v@,
{
    let mut r: Vec<E> = Vec::new();
    for i in 0..v.len()
        invariant
            r@ == v@.take(i as int),
    {
        r.push(v[i]);
        assert(v@.take(i + 1) == v@.take(i as int).push(v@[i as int]));
    }
    assert(v@.take(v.len() as int) == v@);
    r
}

impl<E: Copy> CastContext<E> {
    /// A self-cast context with no targets.
    pub fn new(caster: E) -> (c: CastContext<E>)
        ensures
            c@ == (caster, Seq::<E>::empty()),
    {
        CastContext { caster, targets: Vec::new() }
    }

    /// The same caster, with `targets` as the whole target list.
    pub fn with_targets(self, targets: Vec<E>) -> (c: CastContext<E>)
        ensures
            c@ == (self.caster, targets@),
    {
        CastContext { caster: self.caster, targets }
    }

    /// The same context with one more target at the end.
    pub fn with_target(self, target: E) -> (c: CastContext<E>)
        ensures
            c@ == (self.caster, self.targets@.push(target)),
    {
        let mut c = self;
        c.targets.push(target);
        c
    }

    /// An equal copy of this context.
    pub fn duplicate(&self) -> (c: CastContext<E>)
        ensures
            c@ == self@,
    {
        CastContext { caster: self.caster, targets: copy_vec(&self.targets) }
    }

    /// Keeps the targets whose flag in `keep` is set (the ones still alive), in order.
    pub fn retain_targets(&mut self, keep: &Vec<bool>)
        requires
            keep.len() == old(self).targets.len(),
        ensures
            final(self)@ == (old(self).caster, kept_targets(old(self).targets@, keep@)),
    {
        let mut kept: Vec<E> = Vec::new();
        let n = self.targets.len();
        for i in 0..n
            invariant
                n == self.targets.len(),
                keep.len() == n,
                kept@ == kept_targets(self.targets@.take(i as int), keep@),
        {
            assert(self.targets@.take(i + 1).drop_last() == self.targets@.take(i as int));
            if keep[i] {
                kept.push(self.targets[i]);
            }
        }
        assert(self.targets@.take(n as int) == self.targets@);
        self.targets = kept;
    }
}

/// When a rune first runs after a cast, and how often it repeats, in nanoseconds.
#[derive(Clone, Copy, Debug, PartialEq, Eq, Structural)]
pub struct RuneTiming {
    /// Wait before the first invocation.
    pub delay_nanos: u64,
    /// Period of the repetitions; zero for a rune that runs once.
    pub interval_nanos: u64,
}

/// A rune's registered system waiting for its timer. `S` is the engine's system id.
#[derive(Clone, Copy, Debug)]
pub struct PendingRune<S> {
    /// The system that applies the rune's effect.
    pub system: S,
    /// Countdown to the next invocation.
    pub timer: RuneTimer,
    /// Period of the repetitions; zero for a rune that runs once.
    pub interval_nanos: u64,
}

/// The timer mode of a rune with the given interval: repeating exactly when the interval is
/// not zero.
pub open spec fn mode_for_interval(interval_nanos: u64) -> RuneTimerMode {
    if interval_nanos != 0 {
        RuneTimerMode::Repeating
    } else {
        RuneTimerMode::Once
    }
}

impl<S: Copy> PendingRune<S> {
    /// Whether the rune runs again after it fires.
    pub open spec fn repeats(self) -> bool {
        self.interval_nanos != 0
    }

    /// A freshly scheduled rune: its timer counts down the delay.
    pub open spec fn scheduled(system: S, timing: RuneTiming) -> PendingRune<S> {
        PendingRune {
            system,
            timer: RuneTimer {
                duration_nanos: timing.delay_nanos,
                elapsed_nanos: 0,
                mode: mode_for_interval(timing.interval_nanos),
            },
            interval_nanos: timing.interval_nanos,
        }
    }

    /// Schedules `system` with the given timing: the timer counts down the delay, and
    /// repeats exactly when the interval is not zero.
    pub fn new(system: S, timing: RuneTiming) -> (r: PendingRune<S>)
        ensures
            r == Self::scheduled(system, timing),
    {
        let mode = if timing.interval_nanos != 0 {
            RuneTimerMode::Repeating
        } else {
            RuneTimerMode::Once
        };
        PendingRune {
            system,
            timer: RuneTimer::new(timing.delay_nanos, mode),
            interval_nanos: timing.interval_nanos,
        }
    }

    /// Whether a tick of `delta` nanoseconds makes the rune run.
    pub open spec fn fires(self, delta: u64) -> bool {
        self.timer.finishes(delta)
    }

    /// The rune after a tick: gone if it ran once and does not repeat, restarted on its
    /// interval if it ran and repeats, otherwise still counting.
    pub open spec fn after_tick(self, delta: u64) -> Option<PendingRune<S>> {
        if self.fires(delta) {
            if self.repeats() {
                Some(
                    PendingRune {
                        timer: RuneTimer {
                            duration_nanos: self.interval_nanos,
                            elapsed_nanos: 0,
                            mode: RuneTimerMode::Repeating,
                        },
                        ..self
                    },
                )
            } else {
                None
            }
        } else {
            Some(PendingRune { timer: self.timer.after_tick(delta), ..self })
        }
    }

    /// Ticks the rune by `delta_nanos`: says whether it runs now, and what remains of it.
    pub fn tick(self, delta_nanos: u64) -> (r: (Option<PendingRune<S>>, bool))
        ensures
            r.0 == self.after_tick(delta_nanos),
            r.1 == self.fires(delta_nanos),
    {
        let mut rune = self;
        let fired = rune.timer.tick(delta_nanos);
        if fired {
            if rune.interval_nanos != 0 {
                rune.timer = RuneTimer::new(rune.interval_nanos, RuneTimerMode::Repeating);
                (Some(rune), true)
            } else {
                (None, true)
            }
        } else {
            (Some(rune), false)
        }
    }
}

/// The runes scheduled for a list of (system, timing) pairs, in order.
pub open spec fn schedule_view<S: Copy>(systems: Seq<(S, RuneTiming)>) -> Seq<PendingRune<S>> {
    systems.map_values(|p: (S, RuneTiming)| PendingRune::<S>::scheduled(p.0, p.1))
}

/// Schedules each (system, timing) pair as a fresh pending rune, in order.
pub fn schedule_runes<S: Copy>(systems: &Vec<(S, RuneTiming)>) -> (r: Vec<PendingRune<S>>)
    ensures
        r@ == schedule_view(systems@),
{
    let mut r: Vec<PendingRune<S>> = Vec::new();
    for i in 0..systems.len()
        invariant
            r@ == schedule_view(systems@.take(i as int)),
    {
        let (system, timing) = systems[i];
        r.push(PendingRune::new(system, timing));
        assert(schedule_view(systems@.take(i + 1)) == schedule_view(systems@.take(i as int)).push(
            PendingRune::<S>::scheduled(system, timing),
        ));
    }
    assert(systems@.take(systems.len() as int) == systems@);
    r
}

/// What remains of a list of runes after one tick, in order.
pub open spec fn runes_after<S: Copy>(runes: Seq<PendingRune<S>>, delta: u64) -> Seq<PendingRune<S>>
    decreases runes.len(),
{
    if runes.len() == 0 {
        Seq::empty()
    } else {
        let prev = runes_after(runes.drop_last(), delta);
        match runes.last().after_tick(delta) {
            Some(r) => prev.push(r),
            None => prev,
        }
    }
}

/// The systems of the runes that run during one tick, in order.
pub open spec fn runes_fired<S: Copy>(runes: Seq<PendingRune<S>>, delta: u64) -> Seq<S>
    decreases runes.len(),
{
    if runes.len() == 0 {
        Seq::empty()
    } else {
        let prev = runes_fired(runes.drop_last(), delta);
        if runes.last().fires(delta) {
            prev.push(runes.last().system)
        } else {
            prev
        }
    }
}

/// Ticks every rune of `runes` by `delta_nanos`: returns the runes that remain and the
/// systems to run, both in the order of `runes`.
pub fn tick_runes<S: Copy>(runes: &Vec<PendingRune<S>>, delta_nanos: u64) -> (r: (Vec<PendingRune<S>>, Vec<S>))
    ensures
        r.0@ == runes_after(runes@, delta_nanos),
        r.1@ == runes_fired(runes@, delta_nanos),
{
    let mut kept: Vec<PendingRune<S>> = Vec::new();
    let mut fired: Vec<S> = Vec::new();
    let n = runes.len();
    for i in 0..n
        invariant
            n == runes.len(),
            kept@ == runes_after(runes@.take(i as int), delta_nanos),
            fired@ == runes_fired(runes@.take(i as int), delta_nanos),
    {
        assert(runes@.take(i + 1).drop_last() == runes@.take(i as int));
        let rune = runes[i];
        let (next, ran) = rune.tick(delta_nanos);
        if ran {
            fired.push(rune.system);
        }
        match next {
            Some(r) => kept.push(r),
            None => {},
        }
    }
    assert(runes@.take(n as int) == runes@);
    (kept, fired)
}


/// One cast in flight: its context and the runes still waiting to run.
#[derive(Debug)]
pub struct SpellExecution<S, E> {
    /// Who cast the spell and at whom.
    pub ctx: CastContext<E>,
    /// Runes of the spell that have not finished.
    pub runes: Vec<PendingRune<S>>,
}

/// A spell execution as a mathematical value.
pub type SpellExecutionView<S, E> = (CastContextView<E>, Seq<PendingRune<S>>);

impl<S, E> View for SpellExecution<S, E> {
    type V = SpellExecutionView<S, E>;

    open spec fn view(&self) -> SpellExecutionView<S, E> {
        (self.ctx@, self.runes@)
    }
}

/// The views of a sequence of spell executions.
pub open spec fn executions_view<S, E>(v: Seq<SpellExecution<S, E>>) -> Seq<SpellExecutionView<S, E>> {
    v.map_values(|x: SpellExecution<S, E>| x@)
}

/// The views of a sequence of (system, context) pairs.
pub open spec fn invocations_view<S, E>(v: Seq<(S, CastContext<E>)>) -> Seq<(S, CastContextView<E>)> {
    v.map_values(|x: (S, CastContext<E>)| (x.0, x.1@))
}

/// The systems of `systems`, each paired with the context `ctx`.
pub open spec fn with_context<S, E>(systems: Seq<S>, ctx: CastContextView<E>) -> Seq<(S, CastContextView<E>)> {
    systems.map_values(|s: S| (s, ctx))
}

/// The spell executions after one tick: each keeps the runes that remain, and an
/// execution with no rune left is dropped.
pub open spec fn executions_after<S: Copy, E>(
    execs: Seq<SpellExecutionView<S, E>>,
    delta: u64,
) -> Seq<SpellExecutionView<S, E>>
    decreases execs.len(),
{
    if execs.len() == 0 {
        Seq::empty()
    } else {
        let prev = executions_after(execs.drop_last(), delta);
        let runes = runes_after(execs.last().1, delta);
        if runes.len() > 0 {
            prev.push((execs.last().0, runes))
        } else {
            prev
        }
    }
}

/// The invocations one tick triggers: for each execution in order, the systems of its runes
/// that run, each with the execution's context.
pub open spec fn executions_fired<S: Copy, E>(
    execs: Seq<SpellExecutionView<S, E>>,
    delta: u64,
) -> Seq<(S, CastContextView<E>)>
    decreases execs.len(),
{
    if execs.len() == 0 {
        Seq::empty()
    } else {
        executions_fired(execs.drop_last(), delta) + with_context(
            runes_fired(execs.last().1, delta),
            execs.last().0,
        )
    }
}

/// Appends to `out` one invocation of each system of `systems`, with a copy of `ctx`.
pub fn push_invocations<S: Copy, E: Copy>(out: &mut Vec<(S, CastContext<E>)>, systems: &Vec<S>, ctx: &CastContext<E>)
    ensures
        invocations_view(final(out)@) == invocations_view(old(out)@) + with_context(systems@, ctx@),
{
    let ghost start = invocations_view(out@);
    for k in 0..systems.len()
        invariant
            invocations_view(out@) == start + with_context(systems@.take(k as int), ctx@),
    {
        let c = ctx.duplicate();
        let ghost before = out@;
        out.push((systems[k], c));
        assert(invocations_view(out@) == invocations_view(before).push((systems@[k as int], ctx@)));
        assert(with_context(systems@.take(k + 1), ctx@) == with_context(systems@.take(k as int), ctx@).push(
            (systems@[k as int], ctx@),
        ));
    }
    assert(systems@.take(systems.len() as int) == systems@);
}

/// The spells in flight on one caster.
#[derive(Debug)]
pub struct ActiveSpells<S, E> {
    /// One entry per cast that still has runes waiting.
    pub spells: Vec<SpellExecution<S, E>>,
}

impl<S, E> View for ActiveSpells<S, E> {
    type V = Seq<SpellExecutionView<S, E>>;

    open spec fn view(&self) -> Seq<SpellExecutionView<S, E>> {
        executions_view(self.spells@)
    }
}

impl<S: Copy, E: Copy> ActiveSpells<S, E> {
    /// No spell in flight.
    pub fn new() -> (a: ActiveSpells<S, E>)
        ensures
            a@ == Seq::<SpellExecutionView<S, E>>::empty(),
    {
        ActiveSpells { spells: Vec::new() }
    }

    /// The number of spell executions in flight.
    pub fn spell_count(&self) -> (n: usize)
        ensures
            n == self@.len(),
    {
        self.spells.len()
    }

    /// Whether no spell is in flight (the caster's record can then be dropped).
    pub fn is_empty(&self) -> (b: bool)
        ensures
            b == (self@.len() == 0),
    {
        self.spells.len() == 0
    }

    /// Starts tracking one more cast with its scheduled runes.
    pub fn add_spell(&mut self, ctx: CastContext<E>, runes: Vec<PendingRune<S>>)
        ensures
            final(self)@ == old(self)@.push((ctx@, runes@)),
    {
        let ghost before = self.spells@;
        self.spells.push(SpellExecution { ctx, runes });
        assert(executions_view(self.spells@) == executions_view(before).push((ctx@, runes@)));
    }

    /// Advances every rune timer by `delta_nanos`. Returns the systems to run now, each with
    /// its cast's context, in order of casts and of runes within a cast. Runes that ran once
    /// are dropped, repeating ones restart on their interval, and casts left without runes
    /// are dropped.
    pub fn tick(&mut self, delta_nanos: u64) -> (fired: Vec<(S, CastContext<E>)>)
        ensures
            final(self)@ == executions_after(old(self)@, delta_nanos),
            invocations_view(fired@) == executions_fired(old(self)@, delta_nanos),
            forall|i: int| 0 <= i < final(self)@.len() ==> #[trigger] final(self)@[i].1.len() > 0,
    {
        let mut kept: Vec<SpellExecution<S, E>> = Vec::new();
        let mut fired: Vec<(S, CastContext<E>)> = Vec::new();
        let n = self.spells.len();
        let ghost old_view = self@;
        for j in 0..n
            invariant
                n == self.spells.len(),
                old_view == self@,
                executions_view(kept@) == executions_after(old_view.take(j as int), delta_nanos),
                invocations_view(fired@) == executions_fired(old_view.take(j as int), delta_nanos),
                forall|i: int| 0 <= i < kept@.len() ==> #[trigger] kept@[i].runes@.len() > 0,
        {
            assert(old_view.take(j + 1).drop_last() == old_view.take(j as int));
            assert(old_view.take(j + 1).last() == self.spells@[j as int]@);
            let spell = &self.spells[j];
            let (runes, systems) = tick_runes(&spell.runes, delta_nanos);
            push_invocations(&mut fired, &systems, &spell.ctx);
            if runes.len() > 0 {
                let ghost before = kept@;
                kept.push(SpellExecution { ctx: spell.ctx.duplicate(), runes });
                assert(executions_view(kept@) == executions_view(before).push(kept@.last()@));
            }
        }
        assert(old_view.take(n as int) == old_view);
        self.spells = kept;
        fired
    }
}

} // verus!

verus! {

/// The sum of a sequence of tick lengths.
pub open spec fn total_nanos(deltas: Seq<u64>) -> int
    decreases deltas.len(),
{
    if deltas.len() == 0 {
        0
    } else {
        total_nanos(deltas.drop_last()) + deltas.last()
    }
}

pub(crate) proof fn lemma_total_nanos_nonneg(deltas: Seq<u64>)
    ensures
        total_nanos(deltas) >= 0,
    decreases deltas.len(),
{
    if deltas.len() > 0 {
        lemma_total_nanos_nonneg(deltas.drop_last());
    }
}

/// A rune after a sequence of ticks (`None` once it has run and does not repeat).
pub open spec fn rune_after_ticks<S: Copy>(rune: PendingRune<S>, deltas: Seq<u64>) -> Option<PendingRune<S>>
    decreases deltas.len(),
{
    if deltas.len() == 0 {
        Some(rune)
    } else {
        match rune_after_ticks(rune, deltas.drop_last()) {
            Some(r) => r.after_tick(deltas.last()),
            None => None,
        }
    }
}

/// While the ticks add up to less than what is left of a rune's countdown, the rune does
/// not run: it stays scheduled with the ticks added to its elapsed time.
pub proof fn law_rune_waits_for_its_timer<S: Copy>(rune: PendingRune<S>, deltas: Seq<u64>)
    requires
        rune.timer.elapsed_nanos + total_nanos(deltas) < rune.timer.duration_nanos,
    ensures
        rune_after_ticks(rune, deltas) == Some(
            PendingRune {
                timer: RuneTimer {
                    elapsed_nanos: (rune.timer.elapsed_nanos + total_nanos(deltas)) as u64,
                    ..rune.timer
                },
                ..rune
            },
        ),
        forall|k: int| 0 <= k < deltas.len() ==> !(#[trigger] rune_after_ticks(rune, deltas.take(k)))->0.fires(
            deltas[k],
        ),
    decreases deltas.len(),
{
    if deltas.len() > 0 {
        let prev = deltas.drop_last();
        lemma_total_nanos_nonneg(prev);
        law_rune_waits_for_its_timer(rune, prev);
        assert forall|k: int| 0 <= k < deltas.len() implies !(#[trigger] rune_after_ticks(rune, deltas.take(k)))->0.fires(
            deltas[k],
        ) by {
            if k < deltas.len() - 1 {
                assert(deltas.take(k) == prev.take(k));
                assert(prev[k] == deltas[k]);
            } else {
                assert(deltas.take(k) == prev);
            }
        }
    }
}

/// A rune runs on the tick that brings its countdown to its full length: the ticks before
/// add up to less than what was left, and that tick reaches it. It is then restarted on its
/// interval if it repeats, and gone otherwise. A repeating timer counts the whole periods of a
/// tick in a `u32`; the law leaves out the ticks on which that count wraps to zero, which
/// report no finish.
pub proof fn law_rune_runs_when_timer_reached<S: Copy>(rune: PendingRune<S>, deltas: Seq<u64>)
    requires
        deltas.len() > 0,
        rune.timer.elapsed_nanos + total_nanos(deltas.drop_last()) < rune.timer.duration_nanos,
        rune.timer.duration_nanos <= rune.timer.elapsed_nanos + total_nanos(deltas),
        rune.timer.mode is Repeating ==> ((rune.timer.elapsed_nanos + total_nanos(deltas)) / (
        rune.timer.duration_nanos as int)) % 0x1_0000_0000 != 0,
    ensures
        (rune_after_ticks(rune, deltas.drop_last()))->0.fires(deltas.last()),
        rune.repeats() ==> rune_after_ticks(rune, deltas) == Some(
            PendingRune {
                timer: RuneTimer {
                    duration_nanos: rune.interval_nanos,
                    elapsed_nanos: 0,
                    mode: RuneTimerMode::Repeating,
                },
                ..rune
            },
        ),
        !rune.repeats() ==> rune_after_ticks(rune, deltas) is None,
{
    lemma_total_nanos_nonneg(deltas.drop_last());
    law_rune_waits_for_its_timer(rune, deltas.drop_last());
}

/// A rune scheduled without delay or interval runs on the very first tick, whatever its
/// length, and is then gone.
pub proof fn law_untimed_rune_runs_once_immediately<S: Copy>(system: S, delta: u64)
    ensures
        PendingRune::<S>::scheduled(system, RuneTiming { delay_nanos: 0, interval_nanos: 0 }).fires(delta),
        PendingRune::<S>::scheduled(system, RuneTiming { delay_nanos: 0, interval_nanos: 0 }).after_tick(delta) is None,
{
}

/// A rune that runs once is gone after it runs, so it never runs twice; a repeating rune is
/// never dropped.
pub proof fn law_rune_lifetime<S: Copy>(rune: PendingRune<S>, delta: u64)
    ensures
        rune.fires(delta) && !rune.repeats() ==> rune.after_tick(delta) is None,
        rune.repeats() ==> rune.after_tick(delta) is Some,
        rune.after_tick(delta) matches Some(r) ==> r.system == rune.system && r.interval_nanos == rune.interval_nanos,
{
}

/// A repeating rune is never dropped, however it is ticked: it keeps its system and its
/// interval and still repeats.
pub proof fn law_repeating_rune_is_never_dropped<S: Copy>(rune: PendingRune<S>, deltas: Seq<u64>)
    requires
        rune.repeats(),
    ensures
        rune_after_ticks(rune, deltas) matches Some(r) && r.system == rune.system && r.interval_nanos
            == rune.interval_nanos && r.repeats(),
    decreases deltas.len(),
{
    if deltas.len() > 0 {
        law_repeating_rune_is_never_dropped(rune, deltas.drop_last());
    }
}

/// A repeating rune as it is right after it ran: its timer counts its interval from zero.
pub open spec fn restarted<S>(rune: PendingRune<S>) -> PendingRune<S> {
    PendingRune {
        timer: RuneTimer { duration_nanos: rune.interval_nanos, elapsed_nanos: 0, mode: RuneTimerMode::Repeating },
        ..rune
    }
}

/// After it ran, a repeating rune runs again on the tick at which the ticks since then first
/// add up to its interval, and on none before; it is then back where it was right after it
/// ran. (The part of that tick beyond the interval is not carried over.) The law leaves out
/// the ticks on which the timer's `u32` count of whole intervals wraps to zero.
pub proof fn law_repeating_rune_runs_every_interval<S: Copy>(rune: PendingRune<S>, deltas: Seq<u64>)
    requires
        rune.repeats(),
        deltas.len() > 0,
        total_nanos(deltas.drop_last()) < rune.interval_nanos <= total_nanos(deltas),
        (total_nanos(deltas) / (rune.interval_nanos as int)) % 0x1_0000_0000 != 0,
    ensures
        forall|k: int| 0 <= k < deltas.len() - 1 ==> !(#[trigger] rune_after_ticks(restarted(rune), deltas.take(k)))->0.fires(
            deltas[k],
        ),
        (rune_after_ticks(restarted(rune), deltas.drop_last()))->0.fires(deltas.last()),
        rune_after_ticks(restarted(rune), deltas) == Some(restarted(rune)),
{
    let r = restarted(rune);
    law_rune_waits_for_its_timer(r, deltas.drop_last());
    law_rune_runs_when_timer_reached(r, deltas);
    assert forall|k: int| 0 <= k < deltas.len() - 1 implies !(#[trigger] rune_after_ticks(r, deltas.take(k)))->0.fires(
        deltas[k],
    ) by {
        assert(deltas.take(k) == deltas.drop_last().take(k));
        assert(deltas.drop_last()[k] == deltas[k]);
    }
}

/// Right after it ran, a repeating rune ticked only by ticks at least as long as its interval
/// runs on every one of them, so it runs again and again. The law leaves out the ticks on which
/// the timer's `u32` count of whole intervals wraps to zero.
pub proof fn law_repeating_rune_runs_on_every_long_tick<S: Copy>(rune: PendingRune<S>, deltas: Seq<u64>)
    requires
        rune.repeats(),
        forall|k: int| 0 <= k < deltas.len() ==> rune.interval_nanos <= #[trigger] deltas[k] && ((deltas[k] as int) / (
        rune.interval_nanos as int)) % 0x1_0000_0000 != 0,
    ensures
        forall|k: int| 0 <= k <= deltas.len() ==> #[trigger] rune_after_ticks(restarted(rune), deltas.take(k)) == Some(
            restarted(rune),
        ),
        forall|k: int| 0 <= k < deltas.len() ==> #[trigger] restarted(rune).fires(deltas[k]),
    decreases deltas.len(),
{
    if deltas.len() > 0 {
        let prev = deltas.drop_last();
        assert forall|k: int| 0 <= k < prev.len() implies rune.interval_nanos <= #[trigger] prev[k] && ((prev[k] as int) / (
        rune.interval_nanos as int)) % 0x1_0000_0000 != 0 by {
            assert(prev[k] == deltas[k]);
        }
        law_repeating_rune_runs_on_every_long_tick(rune, prev);
        assert forall|k: int| 0 <= k <= deltas.len() implies #[trigger] rune_after_ticks(restarted(rune), deltas.take(k))
            == Some(restarted(rune)) by {
            if k < deltas.len() {
                assert(deltas.take(k) == prev.take(k));
            } else {
                assert(deltas.take(k) == deltas);
                assert(prev.take(prev.len() as int) == prev);
                assert(rune_after_ticks(restarted(rune), prev.take(prev.len() as int)) == Some(restarted(rune)));
                assert(deltas[deltas.len() - 1] == deltas.last());
                assert(restarted(rune).fires(deltas.last()));
            }
        }
        assert forall|k: int| 0 <= k < deltas.len() implies #[trigger] restarted(rune).fires(deltas[k]) by {
            if k < prev.len() {
                assert(prev[k] == deltas[k]);
            }
        }
    }
}

proof fn lemma_unfinished_rune_remains<S: Copy>(runes: Seq<PendingRune<S>>, delta: u64, i: int)
    requires
        0 <= i < runes.len(),
        !(runes[i].fires(delta) && !runes[i].repeats()),
    ensures
        runes_after(runes, delta).len() > 0,
    decreases runes.len(),
{
    let prev = runes.drop_last();
    if i < runes.len() - 1 {
        assert(prev[i] == runes[i]);
        lemma_unfinished_rune_remains(prev, delta, i);
    } else {
        assert(runes.last() == runes[i]);
    }
}

/// After a tick no rune is left exactly when every rune ran and none repeats.
pub proof fn law_runes_remain_unless_all_done<S: Copy>(runes: Seq<PendingRune<S>>, delta: u64)
    ensures
        (runes_after(runes, delta).len() == 0) == (forall|i: int|
            0 <= i < runes.len() ==> #[trigger] runes[i].fires(delta) && !runes[i].repeats()),
    decreases runes.len(),
{
    if runes.len() > 0 {
        let prev = runes.drop_last();
        law_runes_remain_unless_all_done(prev, delta);
        if runes_after(runes, delta).len() == 0 {
            assert forall|i: int| 0 <= i < runes.len() implies #[trigger] runes[i].fires(delta) && !runes[i].repeats() by {
                if !(runes[i].fires(delta) && !runes[i].repeats()) {
                    lemma_unfinished_rune_remains(runes, delta, i);
                }
            }
        } else {
            if forall|i: int| 0 <= i < runes.len() ==> #[trigger] runes[i].fires(delta) && !runes[i].repeats() {
                assert forall|i: int| 0 <= i < prev.len() implies #[trigger] prev[i].fires(delta) && !prev[i].repeats() by {
                    assert(prev[i] == runes[i]);
                }
                assert(runes.last() == runes[runes.len() - 1]);
            }
        }
    }
}

} // verus!

verus! {

/// Every invocation a tick of the spells in flight triggers carries the context of one of
/// the casts, and only casts whose runes ran produce invocations.
pub proof fn law_cast_invocations_carry_their_context<S: Copy, E>(execs: Seq<SpellExecutionView<S, E>>, delta: u64)
    ensures
        forall|j: int| 0 <= j < executions_fired(execs, delta).len() ==> exists|i: int| 0 <= i < execs.len()
            && (#[trigger] executions_fired(execs, delta)[j]).1 == execs[i].0,
    decreases execs.len(),
{
    if execs.len() > 0 {
        let prev = execs.drop_last();
        law_cast_invocations_carry_their_context(prev, delta);
        let a = executions_fired(prev, delta);
        let b = with_context(runes_fired(execs.last().1, delta), execs.last().0);
        assert forall|j: int| 0 <= j < executions_fired(execs, delta).len() implies exists|i: int| 0 <= i < execs.len()
            && (#[trigger] executions_fired(execs, delta)[j]).1 == execs[i].0 by {
            if j < a.len() {
                let i = choose|i: int| 0 <= i < prev.len() && a[j].1 == prev[i].0;
                assert(prev[i] == execs[i]);
            } else {
                assert(executions_fired(execs, delta)[j] == b[j - a.len()]);
                assert(execs[execs.len() - 1] == execs.last());
            }
        }
    }
}

} // verus!

verus! {

/// The spell executions after a sequence of ticks.
pub open spec fn executions_after_ticks<S: Copy, E>(
    execs: Seq<SpellExecutionView<S, E>>,
    deltas: Seq<u64>,
) -> Seq<SpellExecutionView<S, E>>
    decreases deltas.len(),
{
    if deltas.len() == 0 {
        execs
    } else {
        executions_after(executions_after_ticks(execs, deltas.drop_last()), deltas.last())
    }
}

/// Ticking by `a` and then by `b` is ticking by `a + b`.
pub(crate) proof fn lemma_rune_after_ticks_concat<S: Copy>(rune: PendingRune<S>, a: Seq<u64>, b: Seq<u64>)
    ensures
        rune_after_ticks(rune, a + b) == match rune_after_ticks(rune, a) {
            Some(x) => rune_after_ticks(x, b),
            None => None,
        },
    decreases b.len(),
{
    if b.len() == 0 {
        assert(a + b =~= a);
        match rune_after_ticks(rune, a) {
            Some(x) => {},
            None => {},
        }
    } else {
        assert((a + b).drop_last() =~= a + b.drop_last());
        assert((a + b).last() == b.last());
        lemma_rune_after_ticks_concat(rune, a, b.drop_last());
        match rune_after_ticks(rune, a) {
            Some(x) => {},
            None => {},
        }
    }
}

pub(crate) proof fn lemma_total_nanos_take(deltas: Seq<u64>, k: int)
    requires
        0 <= k < deltas.len(),
    ensures
        total_nanos(deltas.take(k + 1)) == total_nanos(deltas.take(k)) + deltas[k],
{
    assert(deltas.take(k + 1).drop_last() == deltas.take(k));
}

pub(crate) proof fn lemma_total_nanos_take_le(deltas: Seq<u64>, k: int, m: int)
    requires
        0 <= k <= m <= deltas.len(),
    ensures
        total_nanos(deltas.take(k)) <= total_nanos(deltas.take(m)),
    decreases m - k,
{
    if k < m {
        lemma_total_nanos_take(deltas, m - 1);
        lemma_total_nanos_take_le(deltas, k, m - 1);
    }
}

/// A rune that runs once, `system`, counting down `delay` with `elapsed` already counted.
pub open spec fn delayed_rune<S>(system: S, delay: u64, elapsed: u64) -> PendingRune<S> {
    PendingRune {
        system,
        timer: RuneTimer { duration_nanos: delay, elapsed_nanos: elapsed, mode: RuneTimerMode::Once },
        interval_nanos: 0,
    }
}

proof fn lemma_one_execution_tick<S: Copy, E>(ctx: CastContextView<E>, runes: Seq<PendingRune<S>>, delta: u64)
    ensures
        executions_after(seq![(ctx, runes)], delta) == (if runes_after(runes, delta).len() > 0 {
            seq![(ctx, runes_after(runes, delta))]
        } else {
            Seq::<SpellExecutionView<S, E>>::empty()
        }),
        executions_fired(seq![(ctx, runes)], delta) == with_context(runes_fired(runes, delta), ctx),
{
    reveal_with_fuel(executions_after, 2);
    reveal_with_fuel(executions_fired, 2);
    let execs = seq![(ctx, runes)];
    assert(execs.drop_last() =~= Seq::<SpellExecutionView<S, E>>::empty());
    assert(Seq::<(S, CastContextView<E>)>::empty() + with_context(runes_fired(runes, delta), ctx) =~= with_context(
        runes_fired(runes, delta),
        ctx,
    ));
}

proof fn lemma_delayed_rune_tick<S: Copy>(system: S, delay: u64, elapsed: u64, delta: u64)
    requires
        elapsed < delay,
    ensures
        elapsed + delta < delay ==> runes_after(seq![delayed_rune(system, delay, elapsed)], delta) == seq![
            delayed_rune(system, delay, (elapsed + delta) as u64),
        ],
        elapsed + delta < delay ==> runes_fired(seq![delayed_rune(system, delay, elapsed)], delta) == Seq::<S>::empty(),
        delay <= elapsed + delta ==> runes_after(seq![delayed_rune(system, delay, elapsed)], delta) == Seq::<
            PendingRune<S>,
        >::empty(),
        delay <= elapsed + delta ==> runes_fired(seq![delayed_rune(system, delay, elapsed)], delta) == seq![system],
{
    reveal_with_fuel(runes_after, 2);
    reveal_with_fuel(runes_fired, 2);
    let runes = seq![delayed_rune(system, delay, elapsed)];
    assert(runes.drop_last() =~= Seq::<PendingRune<S>>::empty());
    assert(Seq::<PendingRune<S>>::empty().push(delayed_rune(system, delay, (elapsed + delta) as u64)) =~= seq![
        delayed_rune(system, delay, (elapsed + delta) as u64),
    ]);
    assert(Seq::<S>::empty().push(system) =~= seq![system]);
}

proof fn lemma_mixed_cast_waits<S: Copy, E>(
    ctx: CastContextView<E>,
    instant: S,
    delayed: S,
    delay: u64,
    deltas: Seq<u64>,
    k: int,
)
    requires
        1 <= k < deltas.len(),
        total_nanos(deltas.drop_last()) < delay,
    ensures
        executions_after_ticks(
            seq![(ctx, seq![PendingRune::<S>::scheduled(instant, RuneTiming { delay_nanos: 0, interval_nanos: 0 }), PendingRune::<S>::scheduled(delayed, RuneTiming { delay_nanos: delay, interval_nanos: 0 })])],
            deltas.take(k),
        ) == seq![(ctx, seq![delayed_rune(delayed, delay, total_nanos(deltas.take(k)) as u64)])],
    decreases k,
{
    let execs = seq![(ctx, seq![PendingRune::<S>::scheduled(instant, RuneTiming { delay_nanos: 0, interval_nanos: 0 }), PendingRune::<S>::scheduled(delayed, RuneTiming { delay_nanos: delay, interval_nanos: 0 })])];
    lemma_total_nanos_take_le(deltas, k, deltas.len() - 1);
    assert(deltas.drop_last() == deltas.take(deltas.len() - 1));
    lemma_total_nanos_take(deltas, k - 1);
    lemma_total_nanos_nonneg(deltas.take(k - 1));
    assert(deltas.take(k).drop_last() == deltas.take(k - 1));
    assert(deltas.take(k).last() == deltas[k - 1]);
    if k == 1 {
        reveal_with_fuel(runes_after, 3);
        assert(deltas.take(0) =~= Seq::<u64>::empty());
        let runes = execs[0].1;
        let i = runes[0];
        let d = runes[1];
        assert(runes.drop_last() =~= seq![i]);
        assert(seq![i].drop_last() =~= Seq::<PendingRune<S>>::empty());
        assert(d == delayed_rune(delayed, delay, 0));
        assert(runes_after(seq![i], deltas[0]) =~= Seq::<PendingRune<S>>::empty());
        assert(runes_after(runes, deltas[0]) =~= seq![delayed_rune(delayed, delay, deltas[0])]);
        lemma_one_execution_tick(ctx, runes, deltas[0]);
        assert(seq![(ctx, runes)] =~= execs);
        assert(executions_after_ticks(execs, deltas.take(0)) == execs);
        assert(total_nanos(deltas.take(1)) == deltas[0]);
        assert(executions_after_ticks(execs, deltas.take(1)) == executions_after(execs, deltas[0]));
    } else {
        lemma_mixed_cast_waits(ctx, instant, delayed, delay, deltas, k - 1);
        lemma_total_nanos_take_le(deltas, k - 1, k);
        lemma_delayed_rune_tick(delayed, delay, total_nanos(deltas.take(k - 1)) as u64, deltas[k - 1]);
        lemma_one_execution_tick(
            ctx,
            seq![delayed_rune(delayed, delay, total_nanos(deltas.take(k - 1)) as u64)],
            deltas[k - 1],
        );
    }
}

/// A cast with a rune that has no timing and a rune that runs once after `delay`: the first
/// tick, shorter than the delay, runs the untimed rune alone with the cast's context and
/// keeps the cast in flight with the delayed rune counting; no tick runs anything until the
/// ticks add up to the delay; the tick that reaches it runs the delayed rune once with the
/// same context, and the cast is then gone.
pub proof fn law_instant_and_delayed_runes_in_one_cast<S: Copy, E>(
    ctx: CastContextView<E>,
    instant: S,
    delayed: S,
    delay: u64,
    deltas: Seq<u64>,
)
    requires
        deltas.len() >= 2,
        total_nanos(deltas.drop_last()) < delay <= total_nanos(deltas),
    ensures
        ({
            let execs = seq![(ctx, seq![PendingRune::<S>::scheduled(instant, RuneTiming { delay_nanos: 0, interval_nanos: 0 }), PendingRune::<S>::scheduled(delayed, RuneTiming { delay_nanos: delay, interval_nanos: 0 })])];
            &&& executions_fired(execs, deltas[0]) == seq![(instant, ctx)]
            &&& forall|k: int| 1 <= k < deltas.len() ==> #[trigger] executions_after_ticks(execs, deltas.take(k)) == seq![
                (ctx, seq![delayed_rune(delayed, delay, total_nanos(deltas.take(k)) as u64)]),
            ]
            &&& forall|k: int| 1 <= k < deltas.len() - 1 ==> #[trigger] executions_fired(
                executions_after_ticks(execs, deltas.take(k)),
                deltas[k],
            ) == Seq::<(S, CastContextView<E>)>::empty()
            &&& executions_fired(executions_after_ticks(execs, deltas.drop_last()), deltas.last()) == seq![(delayed, ctx)]
            &&& executions_after_ticks(execs, deltas) == Seq::<SpellExecutionView<S, E>>::empty()
        }),
{
    let execs = seq![(ctx, seq![PendingRune::<S>::scheduled(instant, RuneTiming { delay_nanos: 0, interval_nanos: 0 }), PendingRune::<S>::scheduled(delayed, RuneTiming { delay_nanos: delay, interval_nanos: 0 })])];
    let n = deltas.len() as int;
    assert(deltas.drop_last() == deltas.take(n - 1));
    // The first tick.
    lemma_mixed_cast_waits(ctx, instant, delayed, delay, deltas, 1);
    {
        reveal_with_fuel(runes_fired, 3);
        let runes = execs[0].1;
        assert(runes.drop_last() =~= seq![runes[0]]);
        assert(seq![runes[0]].drop_last() =~= Seq::<PendingRune<S>>::empty());
        lemma_total_nanos_take(deltas, 0);
        assert(deltas.take(0) =~= Seq::<u64>::empty());
        lemma_total_nanos_take_le(deltas, 1, n - 1);
        assert(runes_fired(runes, deltas[0]) =~= seq![instant]);
        lemma_one_execution_tick(ctx, runes, deltas[0]);
        assert(seq![(ctx, runes)] =~= execs);
        assert(with_context(seq![instant], ctx) =~= seq![(instant, ctx)]);
    }
    // The ticks in between.
    assert forall|k: int| 1 <= k < n implies #[trigger] executions_after_ticks(execs, deltas.take(k)) == seq![
        (ctx, seq![delayed_rune(delayed, delay, total_nanos(deltas.take(k)) as u64)]),
    ] by {
        lemma_mixed_cast_waits(ctx, instant, delayed, delay, deltas, k);
    }
    assert forall|k: int| 1 <= k < n - 1 implies #[trigger] executions_fired(executions_after_ticks(execs, deltas.take(k)), deltas[k])
        == Seq::<(S, CastContextView<E>)>::empty() by {
        lemma_mixed_cast_waits(ctx, instant, delayed, delay, deltas, k);
        lemma_total_nanos_take(deltas, k);
        lemma_total_nanos_take_le(deltas, k + 1, n - 1);
        lemma_total_nanos_take_le(deltas, k, n - 1);
        lemma_total_nanos_nonneg(deltas.take(k));
        let e = total_nanos(deltas.take(k)) as u64;
        lemma_delayed_rune_tick(delayed, delay, e, deltas[k]);
        lemma_one_execution_tick(ctx, seq![delayed_rune(delayed, delay, e)], deltas[k]);
        assert(with_context(Seq::<S>::empty(), ctx) =~= Seq::<(S, CastContextView<E>)>::empty());
    }
    // The last tick.
    lemma_mixed_cast_waits(ctx, instant, delayed, delay, deltas, n - 1);
    lemma_total_nanos_take(deltas, n - 1);
    assert(deltas.take(n) == deltas);
    lemma_total_nanos_nonneg(deltas.take(n - 1));
    let e = total_nanos(deltas.take(n - 1)) as u64;
    lemma_delayed_rune_tick(delayed, delay, e, deltas[n - 1]);
    lemma_one_execution_tick(ctx, seq![delayed_rune(delayed, delay, e)], deltas[n - 1]);
    assert(deltas.last() == deltas[n - 1]);
    assert(with_context(seq![delayed], ctx) =~= seq![(delayed, ctx)]);
}

/// Ticking a list of runes ticks each rune on its own: what remains of `xs + ys` is what
/// remains of `xs` followed by what remains of `ys`, so the runes that remain keep their order
/// and whether one remains does not depend on the others.
pub proof fn law_runes_after_splits<S: Copy>(xs: Seq<PendingRune<S>>, ys: Seq<PendingRune<S>>, delta: u64)
    ensures
        runes_after(xs + ys, delta) == runes_after(xs, delta) + runes_after(ys, delta),
    decreases ys.len(),
{
    if ys.len() == 0 {
        assert(xs + ys =~= xs);
        assert(runes_after(xs, delta) + Seq::<PendingRune<S>>::empty() =~= runes_after(xs, delta));
    } else {
        assert((xs + ys).drop_last() =~= xs + ys.drop_last());
        assert((xs + ys).last() == ys.last());
        law_runes_after_splits(xs, ys.drop_last(), delta);
        let a = runes_after(xs, delta);
        let b = runes_after(ys.drop_last(), delta);
        match ys.last().after_tick(delta) {
            Some(r) => {
                assert((a + b).push(r) =~= a + b.push(r));
            },
            None => {},
        }
    }
}

/// A single rune remains after a tick exactly as its own tick leaves it.
pub proof fn law_runes_after_one<S: Copy>(rune: PendingRune<S>, delta: u64)
    ensures
        runes_after(seq![rune], delta) == match rune.after_tick(delta) {
            Some(r) => seq![r],
            None => Seq::<PendingRune<S>>::empty(),
        },
{
    reveal_with_fuel(runes_after, 2);
    assert(seq![rune].drop_last() =~= Seq::<PendingRune<S>>::empty());
    match rune.after_tick(delta) {
        Some(r) => {
            assert(Seq::<PendingRune<S>>::empty().push(r) =~= seq![r]);
        },
        None => {},
    }
}

/// The systems a tick runs from `xs + ys` are those it runs from `xs`, then those from `ys`:
/// runes run in their list's order.
pub proof fn law_runes_fired_splits<S: Copy>(xs: Seq<PendingRune<S>>, ys: Seq<PendingRune<S>>, delta: u64)
    ensures
        runes_fired(xs + ys, delta) == runes_fired(xs, delta) + runes_fired(ys, delta),
    decreases ys.len(),
{
    if ys.len() == 0 {
        assert(xs + ys =~= xs);
        assert(runes_fired(xs, delta) + Seq::<S>::empty() =~= runes_fired(xs, delta));
    } else {
        assert((xs + ys).drop_last() =~= xs + ys.drop_last());
        assert((xs + ys).last() == ys.last());
        law_runes_fired_splits(xs, ys.drop_last(), delta);
        let a = runes_fired(xs, delta);
        let b = runes_fired(ys.drop_last(), delta);
        if ys.last().fires(delta) {
            assert((a + b).push(ys.last().system) =~= a + b.push(ys.last().system));
        }
    }
}

/// A tick runs a single rune's system exactly when that rune runs.
pub proof fn law_runes_fired_one<S: Copy>(rune: PendingRune<S>, delta: u64)
    ensures
        runes_fired(seq![rune], delta) == if rune.fires(delta) {
            seq![rune.system]
        } else {
            Seq::<S>::empty()
        },
{
    reveal_with_fuel(runes_fired, 2);
    assert(seq![rune].drop_last() =~= Seq::<PendingRune<S>>::empty());
    assert(Seq::<S>::empty().push(rune.system) =~= seq![rune.system]);
}

/// Ticking the casts in flight ticks each cast on its own: the casts that remain of `xs + ys`
/// are those that remain of `xs` followed by those that remain of `ys`. Whether a cast is
/// kept does not depend on the casts before or after it, and the kept casts keep their order.
pub proof fn law_executions_after_splits<S: Copy, E>(
    xs: Seq<SpellExecutionView<S, E>>,
    ys: Seq<SpellExecutionView<S, E>>,
    delta: u64,
)
    ensures
        executions_after(xs + ys, delta) == executions_after(xs, delta) + executions_after(ys, delta),
    decreases ys.len(),
{
    if ys.len() == 0 {
        assert(xs + ys =~= xs);
        assert(executions_after(xs, delta) + Seq::<SpellExecutionView<S, E>>::empty() =~= executions_after(xs, delta));
    } else {
        assert((xs + ys).drop_last() =~= xs + ys.drop_last());
        assert((xs + ys).last() == ys.last());
        law_executions_after_splits(xs, ys.drop_last(), delta);
        let a = executions_after(xs, delta);
        let b = executions_after(ys.drop_last(), delta);
        let runes = runes_after(ys.last().1, delta);
        if runes.len() > 0 {
            assert((a + b).push((ys.last().0, runes)) =~= a + b.push((ys.last().0, runes)));
        }
    }
}

/// The invocations a tick of `xs + ys` triggers are those of `xs`, then those of `ys`.
pub proof fn law_executions_fired_splits<S: Copy, E>(
    xs: Seq<SpellExecutionView<S, E>>,
    ys: Seq<SpellExecutionView<S, E>>,
    delta: u64,
)
    ensures
        executions_fired(xs + ys, delta) == executions_fired(xs, delta) + executions_fired(ys, delta),
    decreases ys.len(),
{
    if ys.len() == 0 {
        assert(xs + ys =~= xs);
        assert(executions_fired(xs, delta) + Seq::<(S, CastContextView<E>)>::empty() =~= executions_fired(xs, delta));
    } else {
        assert((xs + ys).drop_last() =~= xs + ys.drop_last());
        assert((xs + ys).last() == ys.last());
        law_executions_fired_splits(xs, ys.drop_last(), delta);
        let a = executions_fired(xs, delta);
        let b = executions_fired(ys.drop_last(), delta);
        let c = with_context(runes_fired(ys.last().1, delta), ys.last().0);
        assert((a + b) + c =~= a + (b + c));
    }
}

/// One cast after a tick: it is kept, with the runes that remain, exactly when some of its
/// runes remain, and the tick runs the systems of its runes that run, in order, each with the
/// cast's context.
pub proof fn law_one_execution_tick<S: Copy, E>(ctx: CastContextView<E>, runes: Seq<PendingRune<S>>, delta: u64)
    ensures
        executions_after(seq![(ctx, runes)], delta) == (if runes_after(runes, delta).len() > 0 {
            seq![(ctx, runes_after(runes, delta))]
        } else {
            Seq::<SpellExecutionView<S, E>>::empty()
        }),
        executions_fired(seq![(ctx, runes)], delta) == with_context(runes_fired(runes, delta), ctx),
{
    lemma_one_execution_tick(ctx, runes, delta);
}

} // verus!
