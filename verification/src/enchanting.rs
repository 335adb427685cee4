//! Enchantments: named, persistent effects attached to an enchantable entity, whose runes
//! run on their timers with the applier as caster and the enchanted entity as target.

use vstd::prelude::*;

use crate::runes::{
    delayed_rune, law_repeating_rune_is_never_dropped, law_repeating_rune_runs_every_interval, law_rune_runs_when_timer_reached,
    law_rune_waits_for_its_timer, lemma_rune_after_ticks_concat, lemma_total_nanos_nonneg, lemma_total_nanos_take_le, restarted,
    rune_after_ticks, total_nanos, copy_vec, invocations_view, push_invocations, runes_after, runes_fired, schedule_runes, schedule_view, tick_runes, with_context,
    CastContext, CastContextView, PendingRune, RuneTiming,
};

verus! {

/// Where an enchantment's effects come from: runes given inline, or a spell asset.
/// `R` is the rune type and `H` the spell handle type.
pub enum EnchantmentSource<R, H> {
    /// Runes executed when the enchantment ticks.
    Runes(Vec<R>),
    /// A spell asset whose runes drive the enchantment.
    Spell(H),
}

/// A persistent magical effect, ready to be applied to an enchantable entity.
pub struct Enchantment<E, R, H> {
    /// Human-readable name, also the key for removal.
    pub name: String,
    /// Flavour / tooltip text.
    pub description: String,
    /// Entity that applied the enchantment; the caster of its runes.
    pub applier: E,
    /// Where the effects come from.
    pub source: EnchantmentSource<R, H>,
}

impl<E, R, H> Enchantment<E, R, H> {
    /// An enchantment driven by inline runes.
    pub fn from_runes(name: &str, description: &str, applier: E, runes: Vec<R>) -> (e: Enchantment<E, R, H>)
        ensures
            e.name@ == name@,
            e.description@ == description@,
            e.applier == applier,
            e.source matches EnchantmentSource::Runes(rs) && rs@ == runes@,
    {
        Enchantment {
            name: name.to_owned(),
            description: description.to_owned(),
            applier,
            source: EnchantmentSource::Runes(runes),
        }
    }

    /// An enchantment driven by a spell asset.
    pub fn from_spell(name: &str, description: &str, applier: E, spell: H) -> (e: Enchantment<E, R, H>)
        ensures
            e.name@ == name@,
            e.description@ == description@,
            e.applier == applier,
            e.source == EnchantmentSource::<R, H>::Spell(spell),
    {
        Enchantment {
            name: name.to_owned(),
            description: description.to_owned(),
            applier,
            source: EnchantmentSource::Spell(spell),
        }
    }
}

/// One active enchantment on an entity, with the runes still scheduled.
pub struct ActiveEnchantmentEntry<S, E> {
    /// The name of this enchantment (as it was applied).
    pub name: String,
    /// Description of this enchantment.
    pub description: String,
    /// The entity that applied it: the caster of its runes.
    pub applier: E,
    /// Runes of the enchantment that have not finished.
    pub rune_executions: Vec<PendingRune<S>>,
}

/// An active enchantment as a mathematical value: name, description, applier and runes.
pub type EntryView<S, E> = (Seq<char>, Seq<char>, E, Seq<PendingRune<S>>);

impl<S, E> View for ActiveEnchantmentEntry<S, E> {
    type V = EntryView<S, E>;

    open spec fn view(&self) -> EntryView<S, E> {
        (self.name@, self.description@, self.applier, self.rune_executions@)
    }
}

impl<S: Copy, E: Copy> ActiveEnchantmentEntry<S, E> {
    /// An equal copy of this entry.
    pub fn duplicate(&self) -> (a: ActiveEnchantmentEntry<S, E>)
        ensures
            a@ == self@,
    {
        ActiveEnchantmentEntry {
            name: self.name.clone(),
            description: self.description.clone(),
            applier: self.applier,
            rune_executions: copy_vec(&self.rune_executions),
        }
    }

    /// The active entry for `enchantment`, with one freshly scheduled rune per (system,
    /// timing) pair, in order.
    pub fn from_enchantment<R, H>(enchantment: &Enchantment<E, R, H>, systems: &Vec<(S, RuneTiming)>) -> (a: ActiveEnchantmentEntry<S, E>)
        ensures
            a@ == (enchantment.name@, enchantment.description@, enchantment.applier, schedule_view(systems@)),
    {
        ActiveEnchantmentEntry {
            name: enchantment.name.clone(),
            description: enchantment.description.clone(),
            applier: enchantment.applier,
            rune_executions: schedule_runes(systems),
        }
    }
}

/// The views of a sequence of entries.
pub open spec fn entries_view<S, E>(v: Seq<ActiveEnchantmentEntry<S, E>>) -> Seq<EntryView<S, E>> {
    v.map_values(|x: ActiveEnchantmentEntry<S, E>| x@)
}

/// The entries whose name differs from `name`, in order.
pub open spec fn entries_without<S, E>(entries: Seq<EntryView<S, E>>, name: Seq<char>) -> Seq<EntryView<S, E>>
    decreases entries.len(),
{
    if entries.len() == 0 {
        Seq::empty()
    } else {
        let prev = entries_without(entries.drop_last(), name);
        if entries.last().0 != name {
            prev.push(entries.last())
        } else {
            prev
        }
    }
}

/// The context in which an enchantment's rune runs: cast by the applier at the enchanted
/// entity alone.
pub open spec fn enchantment_context<E>(applier: E, target: E) -> CastContextView<E> {
    (applier, seq![target])
}

/// The entries after one tick: each keeps the runes that remain, and an entry with no rune
/// left is dropped.
pub open spec fn entries_after<S: Copy, E>(entries: Seq<EntryView<S, E>>, delta: u64) -> Seq<EntryView<S, E>>
    decreases entries.len(),
{
    if entries.len() == 0 {
        Seq::empty()
    } else {
        let prev = entries_after(entries.drop_last(), delta);
        let e = entries.last();
        let runes = runes_after(e.3, delta);
        if runes.len() > 0 {
            prev.push((e.0, e.1, e.2, runes))
        } else {
            prev
        }
    }
}

/// The invocations one tick triggers on the entity `target`: for each entry in order, the
/// systems of its runes that run, each cast by the entry's applier at `target`.
pub open spec fn entries_fired<S: Copy, E>(entries: Seq<EntryView<S, E>>, target: E, delta: u64) -> Seq<(S, CastContextView<E>)>
    decreases entries.len(),
{
    if entries.len() == 0 {
        Seq::empty()
    } else {
        let e = entries.last();
        entries_fired(entries.drop_last(), target, delta) + with_context(
            runes_fired(e.3, delta),
            enchantment_context(e.2, target),
        )
    }
}

/// All active enchantments on one entity.
pub struct ActiveEnchantments<S, E> {
    /// The active enchantments, in the order they were applied.
    pub enchantments: Vec<ActiveEnchantmentEntry<S, E>>,
}

impl<S, E> View for ActiveEnchantments<S, E> {
    type V = Seq<EntryView<S, E>>;

    open spec fn view(&self) -> Seq<EntryView<S, E>> {
        entries_view(self.enchantments@)
    }
}

impl<S: Copy, E: Copy> ActiveEnchantments<S, E> {
    /// No enchantment.
    pub fn new() -> (a: ActiveEnchantments<S, E>)
        ensures
            a@ == Seq::<EntryView<S, E>>::empty(),
    {
        ActiveEnchantments { enchantments: Vec::new() }
    }

    /// Whether some active enchantment has the given name.
    pub fn has_enchantment(&self, name: &str) -> (b: bool)
        ensures
            b == exists|i: int| 0 <= i < self@.len() && #[trigger] self@[i].0 == name@,
    {
        let key = name.to_owned();
        for i in 0..self.enchantments.len()
            invariant
                key@ == name@,
                forall|j: int| 0 <= j < i ==> #[trigger] self@[j].0 != name@,
        {
            if self.enchantments[i].name == key {
                assert(self@[i as int].0 == name@);
                return true;
            }
        }
        false
    }

    /// The number of active enchantments.
    pub fn count(&self) -> (n: usize)
        ensures
            n == self@.len(),
    {
        self.enchantments.len()
    }

    /// Whether no enchantment is active (the entity's record can then be dropped).
    pub fn is_empty(&self) -> (b: bool)
        ensures
            b == (self@.len() == 0),
    {
        self.enchantments.len() == 0
    }

    /// The names of the active enchantments, in order.
    pub fn names(&self) -> (r: Vec<String>)
        ensures
            r@.len() == self@.len(),
            forall|i: int| 0 <= i < r@.len() ==> #[trigger] r@[i]@ == self@[i].0,
    {
        let mut r: Vec<String> = Vec::new();
        for i in 0..self.enchantments.len()
            invariant
                r@.len() == i,
                forall|j: int| 0 <= j < i ==> #[trigger] r@[j]@ == self@[j].0,
        {
            r.push(self.enchantments[i].name.clone());
        }
        r
    }

    /// Adds an enchantment after the existing ones.
    pub fn apply(&mut self, entry: ActiveEnchantmentEntry<S, E>)
        ensures
            final(self)@ == old(self)@.push(entry@),
    {
        let ghost before = self.enchantments@;
        self.enchantments.push(entry);
        assert(entries_view(self.enchantments@) == entries_view(before).push(entry@));
    }

    /// Advances every rune timer of the enchantments on `target` by `delta_nanos`. Returns the
    /// systems to run now, each cast by its enchantment's applier at `target` alone, in order
    /// of enchantments and of runes within one. Runes that ran once are dropped, repeating
    /// ones restart on their interval, and enchantments left without runes are dropped.
    pub fn tick(&mut self, target: E, delta_nanos: u64) -> (fired: Vec<(S, CastContext<E>)>)
        ensures
            final(self)@ == entries_after(old(self)@, delta_nanos),
            invocations_view(fired@) == entries_fired(old(self)@, target, delta_nanos),
            forall|i: int| 0 <= i < final(self)@.len() ==> #[trigger] final(self)@[i].3.len() > 0,
    {
        let mut kept: Vec<ActiveEnchantmentEntry<S, E>> = Vec::new();
        let mut fired: Vec<(S, CastContext<E>)> = Vec::new();
        let n = self.enchantments.len();
        let ghost old_view = self@;
        for j in 0..n
            invariant
                n == self.enchantments.len(),
                old_view == self@,
                entries_view(kept@) == entries_after(old_view.take(j as int), delta_nanos),
                invocations_view(fired@) == entries_fired(old_view.take(j as int), target, delta_nanos),
                forall|i: int| 0 <= i < kept@.len() ==> #[trigger] kept@[i].rune_executions@.len() > 0,
        {
            assert(old_view.take(j + 1).drop_last() == old_view.take(j as int));
            assert(old_view.take(j + 1).last() == self.enchantments@[j as int]@);
            let entry = &self.enchantments[j];
            let (runes, systems) = tick_runes(&entry.rune_executions, delta_nanos);
            let ctx = CastContext::new(entry.applier).with_target(target);
            push_invocations(&mut fired, &systems, &ctx);
            if runes.len() > 0 {
                let ghost before = kept@;
                kept.push(
                    ActiveEnchantmentEntry {
                        name: entry.name.clone(),
                        description: entry.description.clone(),
                        applier: entry.applier,
                        rune_executions: runes,
                    },
                );
                assert(entries_view(kept@) == entries_view(before).push(kept@.last()@));
            }
        }
        assert(old_view.take(n as int) == old_view);
        self.enchantments = kept;
        fired
    }

    /// Removes every enchantment with the given name (case-sensitive); the others stay, in
    /// order.
    pub fn remove_enchantment(&mut self, name: &str)
        ensures
            final(self)@ == entries_without(old(self)@, name@),
    {
        let key = name.to_owned();
        let mut kept: Vec<ActiveEnchantmentEntry<S, E>> = Vec::new();
        let ghost old_view = self@;
        let n = self.enchantments.len();
        for i in 0..n
            invariant
                n == self.enchantments.len(),
                old_view == self@,
                key@ == name@,
                entries_view(kept@) == entries_without(old_view.take(i as int), name@),
        {
            assert(old_view.take(i + 1).drop_last() == old_view.take(i as int));
            assert(old_view.take(i + 1).last() == self.enchantments@[i as int]@);
            if self.enchantments[i].name != key {
                let ghost before = kept@;
                kept.push(self.enchantments[i].duplicate());
                assert(entries_view(kept@) == entries_view(before).push(kept@.last()@));
            }
        }
        assert(old_view.take(n as int) == old_view);
        self.enchantments = kept;
    }
}

} // verus!

verus! {

/// Whether an enchantment request goes ahead, and if not, why.
#[derive(Clone, Copy, Debug, PartialEq, Eq, Structural)]
pub enum ApplyDecision {
    /// The target lacks the enchantable marker: the request is ignored.
    NotEnchantable,
    /// The enchantment comes from a spell asset that is not loaded: the request is ignored.
    SpellNotLoaded,
    /// Build the enchantment's rune systems and attach it.
    Apply,
}

/// Decides an enchantment request: only an enchantable target accepts one, and a
/// spell-driven enchantment needs its spell loaded.
pub fn decide_apply<E, R, H>(enchantment: &Enchantment<E, R, H>, target_enchantable: bool, spell_loaded: bool) -> (d: ApplyDecision)
    ensures
        !target_enchantable ==> d == ApplyDecision::NotEnchantable,
        target_enchantable && enchantment.source is Spell && !spell_loaded ==> d == ApplyDecision::SpellNotLoaded,
        target_enchantable && (enchantment.source is Runes || spell_loaded) ==> d == ApplyDecision::Apply,
{
    if !target_enchantable {
        return ApplyDecision::NotEnchantable;
    }
    match &enchantment.source {
        EnchantmentSource::Runes(_) => ApplyDecision::Apply,
        EnchantmentSource::Spell(_) => if spell_loaded {
            ApplyDecision::Apply
        } else {
            ApplyDecision::SpellNotLoaded
        },
    }
}

proof fn lemma_entries_without_keeps<S, E>(entries: Seq<EntryView<S, E>>, name: Seq<char>, e: EntryView<S, E>)
    ensures
        entries_without(entries, name).contains(e) == (entries.contains(e) && e.0 != name),
    decreases entries.len(),
{
    if entries.len() > 0 {
        let prev = entries.drop_last();
        let last = entries.last();
        let w = entries_without(entries, name);
        let wp = entries_without(prev, name);
        lemma_entries_without_keeps(prev, name, e);
        if w.contains(e) {
            let k = choose|k: int| 0 <= k < w.len() && w[k] == e;
            if last.0 != name && k == w.len() - 1 {
                assert(entries[entries.len() - 1] == e);
            } else {
                assert(wp[k] == e);
                let m = choose|m: int| 0 <= m < prev.len() && prev[m] == e;
                assert(entries[m] == e);
            }
        }
        if entries.contains(e) && e.0 != name {
            let i = choose|i: int| 0 <= i < entries.len() && entries[i] == e;
            if i == entries.len() - 1 {
                assert(w == wp.push(last));
                assert(w[w.len() - 1] == e);
            } else {
                assert(prev[i] == e);
                let k = choose|k: int| 0 <= k < wp.len() && wp[k] == e;
                if last.0 != name {
                    assert(w[k] == e);
                } else {
                    assert(w[k] == e);
                }
            }
        }
    }
}

/// After removing an enchantment by name, no enchantment of that name is left, and every
/// enchantment of another name is still there.
pub proof fn law_removed_enchantment_is_gone<S, E>(entries: Seq<EntryView<S, E>>, name: Seq<char>)
    ensures
        forall|i: int| 0 <= i < entries_without(entries, name).len() ==> (#[trigger] entries_without(entries, name)[i]).0 != name,
        forall|i: int| 0 <= i < entries.len() && (#[trigger] entries[i]).0 != name ==> entries_without(entries, name).contains(entries[i]),
{
    assert forall|i: int| 0 <= i < entries_without(entries, name).len() implies (#[trigger] entries_without(entries, name)[i]).0 != name by {
        lemma_entries_without_keeps(entries, name, entries_without(entries, name)[i]);
    }
    assert forall|i: int| 0 <= i < entries.len() && (#[trigger] entries[i]).0 != name implies entries_without(entries, name).contains(entries[i]) by {
        lemma_entries_without_keeps(entries, name, entries[i]);
    }
}

/// Removing a name that no enchantment has changes nothing.
pub proof fn law_remove_absent_is_noop<S, E>(entries: Seq<EntryView<S, E>>, name: Seq<char>)
    requires
        forall|i: int| 0 <= i < entries.len() ==> (#[trigger] entries[i]).0 != name,
    ensures
        entries_without(entries, name) == entries,
    decreases entries.len(),
{
    if entries.len() > 0 {
        let prev = entries.drop_last();
        assert forall|i: int| 0 <= i < prev.len() implies (#[trigger] prev[i]).0 != name by {
            assert(prev[i] == entries[i]);
        }
        law_remove_absent_is_noop(prev, name);
        assert(entries.last() == entries[entries.len() - 1]);
        assert(prev.push(entries.last()) == entries);
    }
}

/// Applying an enchantment under a fresh name and then removing that name gives back the
/// enchantments there were.
pub proof fn law_remove_undoes_apply<S, E>(entries: Seq<EntryView<S, E>>, entry: EntryView<S, E>)
    requires
        forall|i: int| 0 <= i < entries.len() ==> (#[trigger] entries[i]).0 != entry.0,
    ensures
        entries_without(entries.push(entry), entry.0) == entries,
{
    assert(entries.push(entry).drop_last() == entries);
    law_remove_absent_is_noop(entries, entry.0);
}

/// Every invocation an enchantment tick triggers is cast by one of the enchantments'
/// appliers at the enchanted entity alone.
pub proof fn law_enchantment_invocations_target_the_entity<S: Copy, E>(entries: Seq<EntryView<S, E>>, target: E, delta: u64)
    ensures
        forall|j: int| 0 <= j < entries_fired(entries, target, delta).len() ==> (#[trigger] entries_fired(entries, target, delta)[j]).1.1
            == seq![target],
        forall|j: int| 0 <= j < entries_fired(entries, target, delta).len() ==> exists|i: int| 0 <= i < entries.len()
            && (#[trigger] entries_fired(entries, target, delta)[j]).1.0 == entries[i].2,
    decreases entries.len(),
{
    if entries.len() > 0 {
        let prev = entries.drop_last();
        law_enchantment_invocations_target_the_entity(prev, target, delta);
        let a = entries_fired(prev, target, delta);
        let e = entries.last();
        let b = with_context(runes_fired(e.3, delta), enchantment_context(e.2, target));
        assert forall|j: int| 0 <= j < entries_fired(entries, target, delta).len() implies exists|i: int| 0 <= i < entries.len()
            && (#[trigger] entries_fired(entries, target, delta)[j]).1.0 == entries[i].2 by {
            if j < a.len() {
                let i = choose|i: int| 0 <= i < prev.len() && a[j].1.0 == prev[i].2;
                assert(prev[i] == entries[i]);
            } else {
                assert(entries_fired(entries, target, delta)[j] == b[j - a.len()]);
                assert(entries[entries.len() - 1] == e);
            }
        }
        assert forall|j: int| 0 <= j < entries_fired(entries, target, delta).len() implies (#[trigger] entries_fired(entries, target, delta)[j]).1.1
            == seq![target] by {
            if j >= a.len() {
                assert(entries_fired(entries, target, delta)[j] == b[j - a.len()]);
            }
        }
    }
}

/// The enchantments after a sequence of ticks.
pub open spec fn entries_after_ticks<S: Copy, E>(entries: Seq<EntryView<S, E>>, deltas: Seq<u64>) -> Seq<EntryView<S, E>>
    decreases deltas.len(),
{
    if deltas.len() == 0 {
        entries
    } else {
        entries_after(entries_after_ticks(entries, deltas.drop_last()), deltas.last())
    }
}

/// Whether no enchantment of `entries` has the name `name`.
pub open spec fn none_named<S, E>(entries: Seq<EntryView<S, E>>, name: Seq<char>) -> bool {
    forall|i: int| 0 <= i < entries.len() ==> (#[trigger] entries[i]).0 != name
}

/// Whether the invocation `inv` is a system of one of the runes of an enchantment of
/// `entries` not named `name`, cast by that enchantment's applier at `target`.
pub open spec fn fired_by_other_than<S, E>(
    entries: Seq<EntryView<S, E>>,
    name: Seq<char>,
    target: E,
    inv: (S, CastContextView<E>),
) -> bool {
    exists|i: int, r: int|
        0 <= i < entries.len() && entries[i].0 != name && 0 <= r < entries[i].3.len() && inv == (
        #[trigger] entries[i].3[r].system, enchantment_context(entries[i].2, target))
}

proof fn lemma_entries_after_keeps_names<S: Copy, E>(entries: Seq<EntryView<S, E>>, name: Seq<char>, delta: u64)
    requires
        none_named(entries, name),
    ensures
        none_named(entries_after(entries, delta), name),
    decreases entries.len(),
{
    if entries.len() > 0 {
        let prev = entries.drop_last();
        assert forall|i: int| 0 <= i < prev.len() implies (#[trigger] prev[i]).0 != name by {
            assert(prev[i] == entries[i]);
        }
        lemma_entries_after_keeps_names(prev, name, delta);
        assert(entries.last() == entries[entries.len() - 1]);
    }
}

proof fn lemma_runes_fired_from_runes<S: Copy>(runes: Seq<PendingRune<S>>, delta: u64)
    ensures
        forall|j: int| 0 <= j < runes_fired(runes, delta).len() ==> exists|r: int| 0 <= r < runes.len()
            && #[trigger] runes_fired(runes, delta)[j] == runes[r].system,
    decreases runes.len(),
{
    if runes.len() > 0 {
        let prev = runes.drop_last();
        lemma_runes_fired_from_runes(prev, delta);
        assert forall|j: int| 0 <= j < runes_fired(runes, delta).len() implies exists|r: int| 0 <= r < runes.len()
            && #[trigger] runes_fired(runes, delta)[j] == runes[r].system by {
            if j < runes_fired(prev, delta).len() {
                let r = choose|r: int| 0 <= r < prev.len() && runes_fired(prev, delta)[j] == prev[r].system;
                assert(prev[r] == runes[r]);
            } else {
                assert(runes[runes.len() - 1] == runes.last());
            }
        }
    }
}

proof fn lemma_entries_fired_from_entries<S: Copy, E>(entries: Seq<EntryView<S, E>>, name: Seq<char>, target: E, delta: u64)
    requires
        none_named(entries, name),
    ensures
        forall|j: int| 0 <= j < entries_fired(entries, target, delta).len() ==> fired_by_other_than(
            entries,
            name,
            target,
            #[trigger] entries_fired(entries, target, delta)[j],
        ),
    decreases entries.len(),
{
    if entries.len() > 0 {
        let prev = entries.drop_last();
        assert forall|i: int| 0 <= i < prev.len() implies (#[trigger] prev[i]).0 != name by {
            assert(prev[i] == entries[i]);
        }
        lemma_entries_fired_from_entries(prev, name, target, delta);
        let a = entries_fired(prev, target, delta);
        let e = entries.last();
        let b = with_context(runes_fired(e.3, delta), enchantment_context(e.2, target));
        lemma_runes_fired_from_runes(e.3, delta);
        assert forall|j: int| 0 <= j < entries_fired(entries, target, delta).len() implies fired_by_other_than(
            entries,
            name,
            target,
            #[trigger] entries_fired(entries, target, delta)[j],
        ) by {
            let inv = entries_fired(entries, target, delta)[j];
            if j < a.len() {
                assert(inv == a[j]);
                let (i, r) = choose|i: int, r: int|
                    0 <= i < prev.len() && prev[i].0 != name && 0 <= r < prev[i].3.len() && a[j] == (
                    #[trigger] prev[i].3[r].system, enchantment_context(prev[i].2, target));
                assert(prev[i] == entries[i]);
                assert(inv == (entries[i].3[r].system, enchantment_context(entries[i].2, target)));
            } else {
                assert(inv == b[j - a.len()]);
                let r = choose|r: int| 0 <= r < e.3.len() && #[trigger] runes_fired(e.3, delta)[j - a.len()] == e.3[r].system;
                let i = entries.len() - 1;
                assert(entries[i] == e);
                assert(inv == (entries[i].3[r].system, enchantment_context(entries[i].2, target)));
            }
        }
    }
}

/// Once the enchantments of a name are removed, no later tick brings one of that name back or
/// runs a rune of one: after any number of ticks no enchantment has that name, and every
/// invocation a tick triggers is a system of a rune of an enchantment of another name, cast by
/// its applier at the enchanted entity.
pub proof fn law_removed_enchantment_never_runs_again<S: Copy, E>(
    entries: Seq<EntryView<S, E>>,
    name: Seq<char>,
    target: E,
    deltas: Seq<u64>,
)
    ensures
        forall|k: int| 0 <= k <= deltas.len() ==> none_named(
            #[trigger] entries_after_ticks(entries_without(entries, name), deltas.take(k)),
            name,
        ),
        forall|k: int, j: int| 0 <= k < deltas.len() && 0 <= j < entries_fired(
            entries_after_ticks(entries_without(entries, name), deltas.take(k)),
            target,
            deltas[k],
        ).len() ==> fired_by_other_than(
            entries_after_ticks(entries_without(entries, name), deltas.take(k)),
            name,
            target,
            #[trigger] entries_fired(entries_after_ticks(entries_without(entries, name), deltas.take(k)), target, deltas[k])[j],
        ),
    decreases deltas.len(),
{
    let start = entries_without(entries, name);
    law_removed_enchantment_is_gone(entries, name);
    if deltas.len() > 0 {
        let prev = deltas.drop_last();
        law_removed_enchantment_never_runs_again(entries, name, target, prev);
        assert forall|k: int| 0 <= k <= deltas.len() implies none_named(
            #[trigger] entries_after_ticks(start, deltas.take(k)),
            name,
        ) by {
            if k < deltas.len() {
                assert(deltas.take(k) == prev.take(k));
            } else {
                assert(deltas.take(k) == deltas);
                assert(prev.take(prev.len() as int) == prev);
                assert(none_named(entries_after_ticks(start, prev.take(prev.len() as int)), name));
                lemma_entries_after_keeps_names(entries_after_ticks(start, prev), name, deltas.last());
            }
        }
        assert forall|k: int, j: int| 0 <= k < deltas.len() && 0 <= j < entries_fired(
            entries_after_ticks(start, deltas.take(k)),
            target,
            deltas[k],
        ).len() implies fired_by_other_than(
            entries_after_ticks(start, deltas.take(k)),
            name,
            target,
            #[trigger] entries_fired(entries_after_ticks(start, deltas.take(k)), target, deltas[k])[j],
        ) by {
            assert(none_named(entries_after_ticks(start, deltas.take(k)), name));
            lemma_entries_fired_from_entries(entries_after_ticks(start, deltas.take(k)), name, target, deltas[k]);
        }
    } else {
        assert(deltas.take(0) =~= deltas);
        assert(none_named(start, name));
    }
}

proof fn lemma_one_entry_tick<S: Copy, E>(
    name: Seq<char>,
    description: Seq<char>,
    applier: E,
    rune: PendingRune<S>,
    target: E,
    delta: u64,
)
    ensures
        entries_after(seq![(name, description, applier, seq![rune])], delta) == match rune.after_tick(delta) {
            Some(r) => seq![(name, description, applier, seq![r])],
            None => Seq::<EntryView<S, E>>::empty(),
        },
        entries_fired(seq![(name, description, applier, seq![rune])], target, delta) == if rune.fires(delta) {
            seq![(rune.system, enchantment_context(applier, target))]
        } else {
            Seq::<(S, CastContextView<E>)>::empty()
        },
{
    reveal_with_fuel(entries_after, 2);
    reveal_with_fuel(entries_fired, 2);
    reveal_with_fuel(runes_after, 2);
    reveal_with_fuel(runes_fired, 2);
    let entries = seq![(name, description, applier, seq![rune])];
    assert(entries.drop_last() =~= Seq::<EntryView<S, E>>::empty());
    assert(seq![rune].drop_last() =~= Seq::<PendingRune<S>>::empty());
    match rune.after_tick(delta) {
        Some(r) => {
            assert(Seq::<PendingRune<S>>::empty().push(r) =~= seq![r]);
            assert(Seq::<EntryView<S, E>>::empty().push((name, description, applier, seq![r])) =~= seq![
                (name, description, applier, seq![r]),
            ]);
        },
        None => {},
    }
    let ctx = enchantment_context(applier, target);
    if rune.fires(delta) {
        assert(Seq::<S>::empty().push(rune.system) =~= seq![rune.system]);
        assert(Seq::<(S, CastContextView<E>)>::empty() + with_context(seq![rune.system], ctx) =~= seq![(rune.system, ctx)]);
    } else {
        assert(Seq::<(S, CastContextView<E>)>::empty() + with_context(Seq::<S>::empty(), ctx) =~= Seq::<
            (S, CastContextView<E>),
        >::empty());
    }
}

/// The enchantments of one entry with the single rune `rune`.
pub open spec fn one_rune_entry<S, E>(
    name: Seq<char>,
    description: Seq<char>,
    applier: E,
    rune: PendingRune<S>,
) -> Seq<EntryView<S, E>> {
    seq![(name, description, applier, seq![rune])]
}

/// An enchantment with one rune follows its rune over any ticks: it stays, with that rune's
/// state, exactly while the rune does, and a tick runs the rune's system, cast by the applier
/// at the enchanted entity, exactly when the rune runs; nothing else runs.
pub proof fn law_one_rune_enchantment_follows_its_rune<S: Copy, E>(
    name: Seq<char>,
    description: Seq<char>,
    applier: E,
    rune: PendingRune<S>,
    target: E,
    deltas: Seq<u64>,
)
    ensures
        forall|k: int| 0 <= k <= deltas.len() ==> #[trigger] entries_after_ticks(
            one_rune_entry(name, description, applier, rune),
            deltas.take(k),
        ) == match rune_after_ticks(rune, deltas.take(k)) {
            Some(r) => one_rune_entry(name, description, applier, r),
            None => Seq::<EntryView<S, E>>::empty(),
        },
        forall|k: int| 0 <= k < deltas.len() ==> #[trigger] entries_fired(
            entries_after_ticks(one_rune_entry(name, description, applier, rune), deltas.take(k)),
            target,
            deltas[k],
        ) == match rune_after_ticks(rune, deltas.take(k)) {
            Some(r) => if r.fires(deltas[k]) {
                seq![(r.system, enchantment_context(applier, target))]
            } else {
                Seq::<(S, CastContextView<E>)>::empty()
            },
            None => Seq::<(S, CastContextView<E>)>::empty(),
        },
    decreases deltas.len(),
{
    let start = one_rune_entry(name, description, applier, rune);
    if deltas.len() > 0 {
        let prev = deltas.drop_last();
        law_one_rune_enchantment_follows_its_rune(name, description, applier, rune, target, prev);
        assert forall|k: int| 0 <= k <= deltas.len() implies #[trigger] entries_after_ticks(start, deltas.take(k)) == match rune_after_ticks(
            rune,
            deltas.take(k),
        ) {
            Some(r) => one_rune_entry(name, description, applier, r),
            None => Seq::<EntryView<S, E>>::empty(),
        } by {
            if k < deltas.len() {
                assert(deltas.take(k) == prev.take(k));
            } else {
                assert(deltas.take(k) == deltas);
                assert(prev.take(prev.len() as int) == prev);
                assert(entries_after_ticks(start, prev.take(prev.len() as int)) == entries_after_ticks(start, prev));
                match rune_after_ticks(rune, prev) {
                    Some(r) => {
                        lemma_one_entry_tick(name, description, applier, r, target, deltas.last());
                    },
                    None => {},
                }
            }
        }
        assert forall|k: int| 0 <= k < deltas.len() implies #[trigger] entries_fired(
            entries_after_ticks(start, deltas.take(k)),
            target,
            deltas[k],
        ) == match rune_after_ticks(rune, deltas.take(k)) {
            Some(r) => if r.fires(deltas[k]) {
                seq![(r.system, enchantment_context(applier, target))]
            } else {
                Seq::<(S, CastContextView<E>)>::empty()
            },
            None => Seq::<(S, CastContextView<E>)>::empty(),
        } by {
            assert(deltas.take(k) == prev.take(k));
            match rune_after_ticks(rune, deltas.take(k)) {
                Some(r) => {
                    lemma_one_entry_tick(name, description, applier, r, target, deltas[k]);
                },
                None => {},
            }
        }
    } else {
        assert(deltas.take(0) =~= deltas);
    }
}

/// No enchantment is left to run after further ticks once none is left.
pub proof fn law_no_enchantment_stays_none<S: Copy, E>(target: E, deltas: Seq<u64>)
    ensures
        entries_after_ticks(Seq::<EntryView<S, E>>::empty(), deltas) == Seq::<EntryView<S, E>>::empty(),
        forall|k: int| 0 <= k < deltas.len() ==> #[trigger] entries_fired(
            entries_after_ticks(Seq::<EntryView<S, E>>::empty(), deltas.take(k)),
            target,
            deltas[k],
        ) == Seq::<(S, CastContextView<E>)>::empty(),
    decreases deltas.len(),
{
    if deltas.len() > 0 {
        law_no_enchantment_stays_none::<S, E>(target, deltas.drop_last());
    }
    assert forall|k: int| 0 <= k < deltas.len() implies #[trigger] entries_fired(
        entries_after_ticks(Seq::<EntryView<S, E>>::empty(), deltas.take(k)),
        target,
        deltas[k],
    ) == Seq::<(S, CastContextView<E>)>::empty() by {
        law_no_enchantment_stays_none::<S, E>(target, deltas.take(k));
    }
}

/// An enchantment whose one rune runs once after `delay`: while the ticks add up to less than
/// the delay nothing runs and the enchantment stays, its rune counting; the tick that reaches
/// the delay runs the rune's system once, cast by the applier at the enchanted entity, and the
/// enchantment is then gone, so no later tick runs anything.
pub proof fn law_delayed_enchantment_runs_once_then_goes<S: Copy, E>(
    name: Seq<char>,
    description: Seq<char>,
    applier: E,
    system: S,
    delay: u64,
    target: E,
    deltas: Seq<u64>,
    later: Seq<u64>,
)
    requires
        deltas.len() > 0,
        total_nanos(deltas.drop_last()) < delay <= total_nanos(deltas),
    ensures
        ({
            let start = one_rune_entry(
                name,
                description,
                applier,
                PendingRune::<S>::scheduled(system, RuneTiming { delay_nanos: delay, interval_nanos: 0 }),
            );
            &&& forall|k: int| 0 <= k < deltas.len() ==> #[trigger] entries_after_ticks(start, deltas.take(k))
                == one_rune_entry(name, description, applier, delayed_rune(system, delay, total_nanos(deltas.take(k)) as u64))
            &&& forall|k: int| 0 <= k < deltas.len() - 1 ==> #[trigger] entries_fired(
                entries_after_ticks(start, deltas.take(k)),
                target,
                deltas[k],
            ) == Seq::<(S, CastContextView<E>)>::empty()
            &&& entries_fired(entries_after_ticks(start, deltas.drop_last()), target, deltas.last()) == seq![
                (system, enchantment_context(applier, target)),
            ]
            &&& entries_after_ticks(start, deltas) == Seq::<EntryView<S, E>>::empty()
            &&& entries_after_ticks(entries_after_ticks(start, deltas), later) == Seq::<EntryView<S, E>>::empty()
            &&& forall|k: int| 0 <= k < later.len() ==> #[trigger] entries_fired(
                entries_after_ticks(entries_after_ticks(start, deltas), later.take(k)),
                target,
                later[k],
            ) == Seq::<(S, CastContextView<E>)>::empty()
        }),
{
    let rune = PendingRune::<S>::scheduled(system, RuneTiming { delay_nanos: delay, interval_nanos: 0 });
    let start = one_rune_entry(name, description, applier, rune);
    let n = deltas.len() as int;
    law_one_rune_enchantment_follows_its_rune(name, description, applier, rune, target, deltas);
    assert(deltas.drop_last() == deltas.take(n - 1));
    law_rune_waits_for_its_timer(rune, deltas.drop_last());
    assert forall|k: int| 0 <= k < n implies #[trigger] entries_after_ticks(start, deltas.take(k)) == one_rune_entry(
        name,
        description,
        applier,
        delayed_rune(system, delay, total_nanos(deltas.take(k)) as u64),
    ) by {
        lemma_total_nanos_take_le(deltas, k, n - 1);
        law_rune_waits_for_its_timer(rune, deltas.take(k));
    }
    assert forall|k: int| 0 <= k < n - 1 implies #[trigger] entries_fired(entries_after_ticks(start, deltas.take(k)), target, deltas[k])
        == Seq::<(S, CastContextView<E>)>::empty() by {
        assert(deltas.take(k) == deltas.drop_last().take(k));
        assert(deltas.drop_last()[k] == deltas[k]);
        assert(!(rune_after_ticks(rune, deltas.drop_last().take(k)))->0.fires(deltas.drop_last()[k]));
    }
    law_rune_runs_when_timer_reached(rune, deltas);
    assert(deltas.take(n) == deltas);
    assert(deltas[n - 1] == deltas.last());
    assert(entries_after_ticks(start, deltas.take(n)) == entries_after_ticks(start, deltas));
    assert(entries_fired(entries_after_ticks(start, deltas.take(n - 1)), target, deltas[n - 1]) == seq![
        (system, enchantment_context(applier, target)),
    ]);
    law_no_enchantment_stays_none::<S, E>(target, later);
}

/// An enchantment whose one rune repeats on `interval` with no delay never expires: after any
/// ticks it is still there, with one rune of the same system that still repeats. Its rune runs
/// on the first tick, cast by the applier at the enchanted entity, and runs again on the tick at
/// which the ticks after the first add up to the interval (a tick on which the timer's `u32`
/// count of whole intervals wraps to zero is left out).
pub proof fn law_repeating_enchantment_runs_again_and_stays<S: Copy, E>(
    name: Seq<char>,
    description: Seq<char>,
    applier: E,
    system: S,
    interval: u64,
    target: E,
    deltas: Seq<u64>,
)
    requires
        interval > 0,
        deltas.len() > 0,
    ensures
        ({
            let start = one_rune_entry(
                name,
                description,
                applier,
                PendingRune::<S>::scheduled(system, RuneTiming { delay_nanos: 0, interval_nanos: interval }),
            );
            &&& forall|k: int| 0 <= k <= deltas.len() ==> {
                let now = #[trigger] entries_after_ticks(start, deltas.take(k));
                &&& now.len() == 1
                &&& now[0].0 == name
                &&& now[0].2 == applier
                &&& now[0].3.len() == 1
                &&& now[0].3[0].system == system
                &&& now[0].3[0].repeats()
            }
            &&& entries_fired(start, target, deltas[0]) == seq![(system, enchantment_context(applier, target))]
            &&& (deltas.len() >= 2 && total_nanos(deltas.skip(1).drop_last()) < interval <= total_nanos(deltas.skip(1))
                && (total_nanos(deltas.skip(1)) / (interval as int)) % 0x1_0000_0000 != 0) ==> entries_fired(
                entries_after_ticks(start, deltas.drop_last()),
                target,
                deltas.last(),
            ) == seq![(system, enchantment_context(applier, target))]
        }),
{
    let rune = PendingRune::<S>::scheduled(system, RuneTiming { delay_nanos: 0, interval_nanos: interval });
    let start = one_rune_entry(name, description, applier, rune);
    let n = deltas.len() as int;
    law_one_rune_enchantment_follows_its_rune(name, description, applier, rune, target, deltas);
    assert forall|k: int| 0 <= k <= n implies {
        let now = #[trigger] entries_after_ticks(start, deltas.take(k));
        &&& now.len() == 1
        &&& now[0].0 == name
        &&& now[0].2 == applier
        &&& now[0].3.len() == 1
        &&& now[0].3[0].system == system
        &&& now[0].3[0].repeats()
    } by {
        law_repeating_rune_is_never_dropped(rune, deltas.take(k));
    }
    assert(deltas.take(0) =~= Seq::<u64>::empty());
    assert(entries_after_ticks(start, deltas.take(0)) == start);
    assert(rune.fires(deltas[0]));
    if deltas.len() >= 2 && total_nanos(deltas.skip(1).drop_last()) < interval <= total_nanos(deltas.skip(1)) && (
    total_nanos(deltas.skip(1)) / (interval as int)) % 0x1_0000_0000 != 0 {
        let first = seq![deltas[0]];
        let rest = deltas.skip(1);
        assert(first.drop_last() =~= Seq::<u64>::empty());
        assert(rune_after_ticks(rune, first) == Some(restarted(rune)));
        assert(deltas.drop_last() =~= first + rest.drop_last());
        lemma_rune_after_ticks_concat(rune, first, rest.drop_last());
        law_repeating_rune_runs_every_interval(rune, rest);
        assert(rest.last() == deltas.last());
        assert(deltas.take(n - 1) == deltas.drop_last());
        assert(deltas[n - 1] == deltas.last());
    }
}

/// Ticking the enchantments on an entity ticks each enchantment on its own: what remains of
/// `xs + ys` is what remains of `xs` followed by what remains of `ys`. Whether an enchantment
/// is kept does not depend on the enchantments before or after it, and the kept ones keep
/// their order.
pub proof fn law_entries_after_splits<S: Copy, E>(xs: Seq<EntryView<S, E>>, ys: Seq<EntryView<S, E>>, delta: u64)
    ensures
        entries_after(xs + ys, delta) == entries_after(xs, delta) + entries_after(ys, delta),
    decreases ys.len(),
{
    if ys.len() == 0 {
        assert(xs + ys =~= xs);
        assert(entries_after(xs, delta) + Seq::<EntryView<S, E>>::empty() =~= entries_after(xs, delta));
    } else {
        assert((xs + ys).drop_last() =~= xs + ys.drop_last());
        assert((xs + ys).last() == ys.last());
        law_entries_after_splits(xs, ys.drop_last(), delta);
        let a = entries_after(xs, delta);
        let b = entries_after(ys.drop_last(), delta);
        let e = ys.last();
        let runes = runes_after(e.3, delta);
        if runes.len() > 0 {
            assert((a + b).push((e.0, e.1, e.2, runes)) =~= a + b.push((e.0, e.1, e.2, runes)));
        }
    }
}

/// The invocations a tick of the enchantments `xs + ys` triggers are those of `xs`, then
/// those of `ys`.
pub proof fn law_entries_fired_splits<S: Copy, E>(xs: Seq<EntryView<S, E>>, ys: Seq<EntryView<S, E>>, target: E, delta: u64)
    ensures
        entries_fired(xs + ys, target, delta) == entries_fired(xs, target, delta) + entries_fired(ys, target, delta),
    decreases ys.len(),
{
    if ys.len() == 0 {
        assert(xs + ys =~= xs);
        assert(entries_fired(xs, target, delta) + Seq::<(S, CastContextView<E>)>::empty() =~= entries_fired(xs, target, delta));
    } else {
        assert((xs + ys).drop_last() =~= xs + ys.drop_last());
        assert((xs + ys).last() == ys.last());
        law_entries_fired_splits(xs, ys.drop_last(), target, delta);
        let a = entries_fired(xs, target, delta);
        let b = entries_fired(ys.drop_last(), target, delta);
        let e = ys.last();
        let c = with_context(runes_fired(e.3, delta), enchantment_context(e.2, target));
        assert((a + b) + c =~= a + (b + c));
    }
}

/// One enchantment after a tick: it stays, with its name, description, applier and the runes
/// that remain, exactly when some of its runes remain (one rune finishing does not drop the
/// others), and the tick runs the systems of its runes that run, in order, each cast by the
/// applier at the enchanted entity alone.
pub proof fn law_one_enchantment_tick<S: Copy, E>(entry: EntryView<S, E>, target: E, delta: u64)
    ensures
        entries_after(seq![entry], delta) == (if runes_after(entry.3, delta).len() > 0 {
            seq![(entry.0, entry.1, entry.2, runes_after(entry.3, delta))]
        } else {
            Seq::<EntryView<S, E>>::empty()
        }),
        entries_fired(seq![entry], target, delta) == with_context(
            runes_fired(entry.3, delta),
            enchantment_context(entry.2, target),
        ),
{
    reveal_with_fuel(entries_after, 2);
    reveal_with_fuel(entries_fired, 2);
    let entries = seq![entry];
    assert(entries.drop_last() =~= Seq::<EntryView<S, E>>::empty());
    let runes = runes_after(entry.3, delta);
    if runes.len() > 0 {
        assert(Seq::<EntryView<S, E>>::empty().push((entry.0, entry.1, entry.2, runes)) =~= seq![
            (entry.0, entry.1, entry.2, runes),
        ]);
    }
    let c = with_context(runes_fired(entry.3, delta), enchantment_context(entry.2, target));
    assert(Seq::<(S, CastContextView<E>)>::empty() + c =~= c);
}

} // verus!
