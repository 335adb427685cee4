//! The enchanting scenarios, driven frame by frame against the library's decisions.

use bevy_magic::enchanting::{decide_apply, ActiveEnchantmentEntry, ActiveEnchantments, ApplyDecision, Enchantment};
use bevy_magic::runes::RuneTiming;
use bevy_magic::Spell;

type Entity = u64;
type SystemId = u64;

const FIRST_FRAME_DELTA: u64 = 0;
const FRAME_DELTA: u64 = 100_000;

/// A rune that counts its invocations in the world's counter `counter`.
#[derive(Clone, Copy)]
struct CountingRune {
    counter: usize,
    delay_nanos: u64,
    interval_nanos: u64,
}

fn counting(counter: usize) -> CountingRune {
    CountingRune { counter, delay_nanos: 0, interval_nanos: 0 }
}

fn repeating(counter: usize, interval_secs_millis: u64) -> CountingRune {
    CountingRune { counter, delay_nanos: 0, interval_nanos: interval_secs_millis * 1_000_000 }
}

fn delayed(counter: usize, delay_millis: u64) -> CountingRune {
    CountingRune { counter, delay_nanos: delay_millis * 1_000_000, interval_nanos: 0 }
}

/// One enchanted entity, the spells it can draw on, and what ran.
struct World {
    target: Entity,
    enchantable: bool,
    spells: Vec<Spell<CountingRune>>,
    systems: Vec<usize>,
    counters: Vec<u32>,
    active: Option<ActiveEnchantments<SystemId, Entity>>,
    apply_queue: Vec<Enchantment<Entity, CountingRune, usize>>,
    remove_queue: Vec<String>,
    frames: u32,
}

impl World {
    fn new(enchantable: bool) -> World {
        World {
            target: 7,
            enchantable,
            spells: Vec::new(),
            systems: Vec::new(),
            counters: Vec::new(),
            active: None,
            apply_queue: Vec::new(),
            remove_queue: Vec::new(),
            frames: 0,
        }
    }

    fn counter(&mut self) -> usize {
        self.counters.push(0);
        self.counters.len() - 1
    }

    fn read(&self, counter: usize) -> u32 {
        self.counters[counter]
    }

    fn register(&mut self, rune: &CountingRune) -> (SystemId, RuneTiming) {
        self.systems.push(rune.counter);
        (
            (self.systems.len() - 1) as SystemId,
            RuneTiming { delay_nanos: rune.delay_nanos, interval_nanos: rune.interval_nanos },
        )
    }

    fn update(&mut self) {
        let delta = if self.frames == 0 { FIRST_FRAME_DELTA } else { FRAME_DELTA };
        self.frames += 1;
        for enchantment in std::mem::take(&mut self.apply_queue) {
            let loaded = match &enchantment.source {
                bevy_magic::EnchantmentSource::Spell(i) => *i < self.spells.len(),
                _ => false,
            };
            if decide_apply(&enchantment, self.enchantable, loaded) != ApplyDecision::Apply {
                continue;
            }
            let runes: Vec<CountingRune> = match &enchantment.source {
                bevy_magic::EnchantmentSource::Runes(rs) => rs.clone(),
                bevy_magic::EnchantmentSource::Spell(i) => self.spells[*i].runes.clone(),
            };
            let systems: Vec<(SystemId, RuneTiming)> = runes.iter().map(|r| self.register(r)).collect();
            let entry = ActiveEnchantmentEntry::from_enchantment(&enchantment, &systems);
            match &mut self.active {
                Some(active) => active.apply(entry),
                None => {
                    let mut active = ActiveEnchantments::new();
                    active.apply(entry);
                    self.active = Some(active);
                }
            }
        }
        for name in std::mem::take(&mut self.remove_queue) {
            if let Some(active) = &mut self.active {
                active.remove_enchantment(&name);
                if active.is_empty() {
                    self.active = None;
                }
            }
        }
        if let Some(active) = &mut self.active {
            let fired = active.tick(self.target, delta);
            for (system, ctx) in fired {
                assert_eq!(ctx.targets, vec![self.target]);
                let counter = self.systems[system as usize];
                self.counters[counter] += 1;
            }
            if active.is_empty() {
                self.active = None;
            }
        }
    }
}

#[test]
fn enchantment_is_rejected_without_enchantable_component() {
    let mut world = World::new(false);
    let applier: Entity = 1;
    let hits = world.counter();
    let enchantment = Enchantment::from_runes("Test", "Should not apply", applier, vec![counting(hits)]);
    assert_eq!(decide_apply(&enchantment, false, false), ApplyDecision::NotEnchantable);
    world.apply_queue.push(enchantment);
    world.update();
    world.update();
    assert!(world.active.is_none(), "ActiveEnchantments should not be added to non-Enchantable entity");
    assert_eq!(world.read(hits), 0, "Rune should not have fired");
}

#[test]
fn enchantment_is_accepted_with_enchantable_component() {
    let mut world = World::new(true);
    let hits = world.counter();
    let enchantment = Enchantment::from_runes("Spark", "Repeats so it does not self-remove", 1, vec![repeating(hits, 1)]);
    world.apply_queue.push(enchantment);
    world.update();
    assert!(
        world.active.is_some(),
        "Enchantable entity should have ActiveEnchantments with a repeating enchantment"
    );
    assert!(world.read(hits) > 0, "Rune should have fired at least once");
}

#[test]
fn one_shot_enchantment_fires_and_cleans_up() {
    let mut world = World::new(true);
    let hits = world.counter();
    world.apply_queue.push(Enchantment::from_runes("Flash", "Single burst", 1, vec![counting(hits)]));
    world.update();
    assert_eq!(world.read(hits), 1);
    assert!(world.active.is_none(), "ActiveEnchantments should be cleaned up after all runes complete");
}

#[test]
fn repeating_enchantment_fires_multiple_times() {
    let mut world = World::new(true);
    let hits = world.counter();
    world.apply_queue.push(Enchantment::from_runes("Burn", "Repeating fire damage", 1, vec![repeating(hits, 1)]));
    for _ in 0..60 {
        world.update();
    }
    assert!(world.read(hits) > 1, "Repeating rune should have fired more than once, got {}", world.read(hits));
    assert!(world.active.is_some(), "Repeating enchantment should still be active");
}

#[test]
fn delayed_enchantment_waits_before_firing() {
    let mut world = World::new(true);
    let hits = world.counter();
    world.apply_queue.push(Enchantment::from_runes("Slow Burn", "Delayed fire", 1, vec![delayed(hits, 1)]));
    world.update();
    assert!(world.active.is_some(), "ActiveEnchantments exists during delay");
    for _ in 0..50 {
        world.update();
    }
    assert_eq!(world.read(hits), 1, "Delayed rune should have fired once after delay");
    assert!(world.active.is_none(), "ActiveEnchantments should be removed after delayed rune completes");
}

#[test]
fn remove_enchantment_by_name_stops_further_ticks() {
    let mut world = World::new(true);
    let hits = world.counter();
    world.apply_queue.push(Enchantment::from_runes("Poison", "Repeating poison", 1, vec![repeating(hits, 1)]));
    for _ in 0..20 {
        world.update();
    }
    let count_before_remove = world.read(hits);
    assert!(count_before_remove > 0, "Should have fired before removal");
    world.remove_queue.push("Poison".to_string());
    world.update();
    for _ in 0..20 {
        world.update();
    }
    assert_eq!(world.read(hits), count_before_remove, "Rune must not fire after removal");
}

#[test]
fn remove_nonexistent_enchantment_is_a_no_op() {
    let mut world = World::new(true);
    world.remove_queue.push("Ghost".to_string());
    world.update();
    world.update();
    assert!(world.active.is_none());
    let mut active: ActiveEnchantments<SystemId, Entity> = ActiveEnchantments::new();
    active.remove_enchantment("Ghost");
    assert_eq!(active.count(), 0);
}

#[test]
fn multiple_enchantments_stack_on_same_entity() {
    let mut world = World::new(true);
    let hits_a = world.counter();
    let hits_b = world.counter();
    for (name, c) in [("Frost", hits_a), ("Fire", hits_b)] {
        world.apply_queue.push(Enchantment::from_runes(name, "stacked", 1, vec![repeating(c, 1)]));
    }
    for _ in 0..30 {
        world.update();
    }
    let active = world.active.as_ref().expect("should have active enchantments");
    assert_eq!(active.count(), 2, "Both enchantments should be active");
    assert!(active.has_enchantment("Frost"));
    assert!(active.has_enchantment("Fire"));
    assert!(world.read(hits_a) > 0);
    assert!(world.read(hits_b) > 0);
}

#[test]
fn remove_one_of_many_enchantments_leaves_others_intact() {
    let mut world = World::new(true);
    let hits_keep = world.counter();
    let hits_remove = world.counter();
    for (name, c) in [("Keep", hits_keep), ("Remove", hits_remove)] {
        world.apply_queue.push(Enchantment::from_runes(name, "", 1, vec![repeating(c, 1)]));
    }
    for _ in 0..10 {
        world.update();
    }
    world.remove_queue.push("Remove".to_string());
    world.update();
    let active = world.active.as_ref().expect("Keep enchantment should still be active");
    assert_eq!(active.count(), 1);
    assert!(active.has_enchantment("Keep"));
    assert!(!active.has_enchantment("Remove"));
}

#[test]
fn commands_ext_apply_enchantment() {
    let mut world = World::new(true);
    let hits = world.counter();
    let enchantment = Enchantment::from_runes("Ext Test", "Via CommandsExt", 1, vec![counting(hits)]);
    world.apply_queue.push(enchantment);
    world.update();
    world.update();
    assert_eq!(world.read(hits), 1, "CommandsExt::apply_enchantment should work");
}

#[test]
fn commands_ext_remove_enchantment() {
    let mut world = World::new(true);
    let hits = world.counter();
    world.apply_queue.push(Enchantment::from_runes("Ext Remove", "", 1, vec![repeating(hits, 1)]));
    for _ in 0..10 {
        world.update();
    }
    world.remove_queue.push("Ext Remove".to_string());
    world.update();
    let count_after = world.read(hits);
    for _ in 0..10 {
        world.update();
    }
    assert_eq!(world.read(hits), count_after, "CommandsExt::remove_enchantment should stop further ticks");
}

#[test]
fn spell_backed_enchantment_fires_spell_runes() {
    let mut world = World::new(true);
    let hits = world.counter();
    let spell = Spell::new("Enchant Spell", "A spell used as an enchantment").with_rune(counting(hits));
    world.spells.push(spell);
    let enchantment = Enchantment::from_spell("Spell Enchant", "Drives effect from a Spell asset", 1, 0);
    world.apply_queue.push(enchantment);
    world.update();
    world.update();
    assert_eq!(world.read(hits), 1, "Spell-backed enchantment rune should have fired");
}

#[test]
fn active_enchantments_names_iterator() {
    let mut world = World::new(true);
    for name in ["Alpha", "Beta", "Gamma"] {
        let c = world.counter();
        world.apply_queue.push(Enchantment::from_runes(name, "", 1, vec![repeating(c, 500)]));
    }
    world.update();
    let active = world.active.as_ref().expect("active enchantments present");
    let names: Vec<String> = active.names();
    assert_eq!(names.len(), 3);
    assert!(names.contains(&"Alpha".to_string()));
    assert!(names.contains(&"Beta".to_string()));
    assert!(names.contains(&"Gamma".to_string()));
}

#[test]
fn spell_backed_enchantment_waits_for_its_spell() {
    let mut world = World::new(true);
    let enchantment: Enchantment<Entity, CountingRune, usize> =
        Enchantment::from_spell("Spell Enchant", "", 1, 3);
    assert_eq!(decide_apply(&enchantment, true, false), ApplyDecision::SpellNotLoaded);
    world.apply_queue.push(enchantment);
    world.update();
    assert!(world.active.is_none());
}

#[test]
fn enchantment_runs_cast_by_applier_at_target() {
    let hits = 0usize;
    let enchantment: Enchantment<Entity, CountingRune, usize> =
        Enchantment::from_runes("Aura", "", 42, vec![counting(hits)]);
    let entry: ActiveEnchantmentEntry<SystemId, Entity> =
        ActiveEnchantmentEntry::from_enchantment(&enchantment, &vec![(9, RuneTiming { delay_nanos: 0, interval_nanos: 0 })]);
    let mut active = ActiveEnchantments::new();
    active.apply(entry);
    let fired = active.tick(5, 0);
    assert_eq!(fired.len(), 1);
    assert_eq!(fired[0].0, 9);
    assert_eq!(fired[0].1.caster, 42);
    assert_eq!(fired[0].1.targets, vec![5]);
    assert!(active.is_empty());
}

#[test]
fn removing_applied_enchantment_restores_the_rest() {
    let mut active: ActiveEnchantments<SystemId, Entity> = ActiveEnchantments::new();
    let timing = RuneTiming { delay_nanos: 5, interval_nanos: 0 };
    let a: Enchantment<Entity, CountingRune, usize> = Enchantment::from_runes("A", "first", 1, vec![]);
    let b: Enchantment<Entity, CountingRune, usize> = Enchantment::from_runes("B", "second", 1, vec![]);
    active.apply(ActiveEnchantmentEntry::from_enchantment(&a, &vec![(1, timing)]));
    active.apply(ActiveEnchantmentEntry::from_enchantment(&b, &vec![(2, timing)]));
    active.apply(ActiveEnchantmentEntry::from_enchantment(&a, &vec![(3, timing)]));
    active.remove_enchantment("A");
    assert_eq!(active.names(), vec!["B".to_string()]);
    assert_eq!(active.enchantments[0].rune_executions[0].system, 2);
}

#[test]
fn removing_the_last_enchantment_drops_the_record() {
    let mut world = World::new(true);
    let hits = world.counter();
    world.apply_queue.push(Enchantment::from_runes("Poison", "", 1, vec![repeating(hits, 1)]));
    world.update();
    assert!(world.active.is_some());
    world.remove_queue.push("Poison".to_string());
    world.update();
    assert!(world.active.is_none());
}
