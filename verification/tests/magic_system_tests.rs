//! The casting scenarios, driven frame by frame against the library's decisions.

use bevy_magic::plugin::AssetKey;
use bevy_magic::runes::{ActiveSpells, CastContext, RuneTiming};
use bevy_magic::{RuneSystemCache, Spell, Spellbook};

type Entity = u64;
type SystemId = u64;

const FRAME_DELTA: u64 = 100_000;

/// A rune kind with its timing; the world counts how often each kind ran.
#[derive(Clone, Copy, Debug, PartialEq)]
enum TestRune {
    Damage,
    Heal,
    Status,
    Timed { delay_millis: u64, interval_millis: u64 },
}

impl TestRune {
    fn timing(&self) -> RuneTiming {
        match self {
            TestRune::Timed { delay_millis, interval_millis } => RuneTiming {
                delay_nanos: delay_millis * 1_000_000,
                interval_nanos: interval_millis * 1_000_000,
            },
            _ => RuneTiming { delay_nanos: 0, interval_nanos: 0 },
        }
    }
}

struct World {
    spells: Vec<Spell<TestRune>>,
    cache: RuneSystemCache<SystemId>,
    systems_built: u32,
    runs: u32,
    active: Vec<(Entity, ActiveSpells<SystemId, Entity>)>,
    casts: Vec<(Entity, Vec<Entity>, AssetKey)>,
    frames: u32,
}

impl World {
    fn new() -> World {
        World {
            spells: Vec::new(),
            cache: RuneSystemCache::new(),
            systems_built: 0,
            runs: 0,
            active: Vec::new(),
            casts: Vec::new(),
            frames: 0,
        }
    }

    fn add(&mut self, spell: Spell<TestRune>) -> AssetKey {
        self.spells.push(spell);
        AssetKey::Index((self.spells.len() - 1) as u64)
    }

    fn active_of(&self, caster: Entity) -> Option<&ActiveSpells<SystemId, Entity>> {
        self.active.iter().find(|(e, _)| *e == caster).map(|(_, a)| a)
    }

    fn update(&mut self) {
        let delta = if self.frames == 0 { 0 } else { FRAME_DELTA };
        self.frames += 1;
        for (caster, targets, key) in std::mem::take(&mut self.casts) {
            let index = match key {
                AssetKey::Index(i) => i as usize,
                AssetKey::Uuid(_) => usize::MAX,
            };
            let spell = match self.spells.get(index) {
                Some(s) => s,
                None => continue,
            };
            let missing = self.cache.missing_rune_indices(key, spell.runes.len());
            let mut registered = Vec::new();
            for i in missing {
                registered.push((i, self.systems_built as SystemId));
                self.systems_built += 1;
            }
            self.cache.insert_all(key, &registered);
            let timings: Vec<RuneTiming> = spell.runes.iter().map(|r| r.timing()).collect();
            let runes = self.cache.cached_runes(key, &timings);
            let ctx = CastContext::new(caster).with_targets(targets);
            match self.active.iter_mut().find(|(e, _)| *e == caster) {
                Some((_, a)) => a.add_spell(ctx, runes),
                None => {
                    let mut a = ActiveSpells::new();
                    a.add_spell(ctx, runes);
                    self.active.push((caster, a));
                }
            }
        }
        for (_, a) in self.active.iter_mut() {
            let fired = a.tick(delta);
            for (_system, mut ctx) in fired {
                let alive = vec![true; ctx.targets.len()];
                ctx.retain_targets(&alive);
                self.runs += 1;
            }
        }
        self.active.retain(|(_, a)| !a.is_empty());
    }
}

fn damage() -> TestRune {
    TestRune::Damage
}

#[test]
fn spell_builder_constructs_with_runes() {
    let spell = Spell::new("Test Spell", "A test").with_rune(TestRune::Heal).with_rune(damage());
    assert_eq!(spell.name, "Test Spell");
    assert_eq!(spell.runes.len(), 2);
}

#[test]
fn instant_rune_executes_immediately() {
    let mut world = World::new();
    let handle = world.add(Spell::new("Instant", "").with_rune(damage()));
    let caster = 1;
    let target = 2;
    world.casts.push((caster, vec![target], handle));
    world.update();
    world.update();
    assert!(world.active_of(caster).is_none());
}

#[test]
fn delayed_rune_waits_before_execution() {
    let mut world = World::new();
    let handle = world.add(Spell::new("Delayed", "").with_rune(TestRune::Timed { delay_millis: 1, interval_millis: 0 }));
    let caster = 1;
    world.casts.push((caster, vec![], handle));
    world.update();
    assert!(world.active_of(caster).is_some());
    for _ in 0..50 {
        world.update();
    }
    assert!(world.active_of(caster).is_none());
}

#[test]
fn repeating_rune_ticks_at_interval() {
    let mut world = World::new();
    let handle = world.add(Spell::new("Repeating", "").with_rune(TestRune::Timed { delay_millis: 0, interval_millis: 100 }));
    let caster = 1;
    world.casts.push((caster, vec![], handle));
    world.update();
    world.update();
    assert!(world.active_of(caster).is_some());
    for _ in 0..100 {
        world.update();
    }
    assert!(world.active_of(caster).is_some());
}

#[test]
fn instant_and_delayed_runes_mixed_in_one_spell() {
    let mut world = World::new();
    let spell = Spell::new("Mixed", "")
        .with_rune(damage())
        .with_rune(TestRune::Timed { delay_millis: 1, interval_millis: 0 });
    let handle = world.add(spell);
    let caster = 1;
    world.casts.push((caster, vec![], handle));
    world.update();
    world.update();
    assert!(world.active_of(caster).is_some());
    for _ in 0..50 {
        world.update();
    }
    assert!(world.active_of(caster).is_none());
}

#[test]
fn multiple_spells_stacked_on_same_caster() {
    let mut world = World::new();
    let h1 = world.add(Spell::new("Spell1", "").with_rune(TestRune::Timed { delay_millis: 0, interval_millis: 2 }));
    let h2 = world.add(Spell::new("Spell2", "").with_rune(TestRune::Timed { delay_millis: 1, interval_millis: 0 }));
    let caster = 1;
    world.casts.push((caster, vec![], h1));
    world.casts.push((caster, vec![], h2));
    world.update();
    let active = world.active_of(caster);
    assert!(active.is_some());
    assert_eq!(active.unwrap().spell_count(), 2);
    for _ in 0..50 {
        world.update();
    }
    let active = world.active_of(caster);
    assert!(active.is_some());
    let count = active.unwrap().spell_count();
    assert_eq!(count, 1, "Expected only spell1 to remain (repeating), but {} spells exist", count);
}

#[test]
fn active_spells_cleaned_up_when_runes_complete() {
    let mut world = World::new();
    let handle = world.add(Spell::new("Quick", "").with_rune(damage()));
    let caster = 1;
    world.casts.push((caster, vec![], handle));
    world.update();
    world.update();
    assert!(world.active_of(caster).is_none());
}

#[test]
fn cast_context_supports_self_and_multi_target() {
    let caster: Entity = 1;
    let t1: Entity = 2;
    let t2: Entity = 3;
    let self_ctx = CastContext::new(caster);
    assert_eq!(self_ctx.caster, caster);
    assert!(self_ctx.targets.is_empty());
    let multi_ctx = CastContext::new(caster).with_targets(vec![t1, t2]);
    assert_eq!(multi_ctx.caster, caster);
    assert_eq!(multi_ctx.targets.len(), 2);
    assert!(multi_ctx.targets.contains(&t1));
    assert!(multi_ctx.targets.contains(&t2));
}

#[test]
fn spellbook_manages_spells() {
    let h1: u64 = 10;
    let h2: u64 = 11;
    let sb = Spellbook::new().with_spell(h1).with_spell(h2);
    assert_eq!(sb.len(), 2);
    assert!(sb.contains(&h1));
    assert!(sb.contains(&h2));
    let mut sb = sb;
    sb.remove_spell(&h1);
    assert_eq!(sb.len(), 1);
    assert!(sb.contains(&h2));
}

#[test]
fn cast_event_executes_without_panic() {
    let mut world = World::new();
    let handle = world.add(Spell::new("Zap", "").with_rune(damage()));
    world.casts.push((1, vec![2], handle));
    world.update();
    assert_eq!(world.runs, 1);
}

#[test]
fn cast_self_heal_no_targets() {
    let mut world = World::new();
    let handle = world.add(Spell::new("Minor Heal", "").with_rune(TestRune::Heal));
    world.casts.push((1, vec![], handle));
    world.update();
    assert_eq!(world.runs, 1);
}

#[test]
fn cast_multi_target_spell() {
    let mut world = World::new();
    let spell = Spell::new("Chain Lightning", "").with_rune(damage()).with_rune(TestRune::Status);
    let handle = world.add(spell);
    let targets: Vec<Entity> = (10..15).collect();
    world.casts.push((1, targets, handle));
    world.update();
    assert_eq!(world.runs, 2);
}

#[test]
fn multiple_events_in_same_frame_all_processed() {
    let mut world = World::new();
    let handle = world.add(Spell::new("Quick Strike", "").with_rune(damage()));
    for _ in 0..3 {
        world.casts.push((1, vec![2], handle));
    }
    world.update();
    assert_eq!(world.runs, 3);
    assert_eq!(world.systems_built, 1);
}

#[test]
fn events_across_frames_not_double_processed() {
    let mut world = World::new();
    let handle = world.add(Spell::new("Test", "").with_rune(TestRune::Heal));
    world.casts.push((1, vec![], handle));
    world.update();
    world.casts.push((1, vec![], handle));
    world.update();
    assert_eq!(world.runs, 2);
    assert_eq!(world.systems_built, 1);
}

#[test]
fn cast_invalid_spell_handle_is_silent_noop() {
    let mut world = World::new();
    world.casts.push((1, vec![], AssetKey::Uuid(0)));
    world.update();
    assert!(world.active_of(1).is_none());
    assert_eq!(world.runs, 0);
}
