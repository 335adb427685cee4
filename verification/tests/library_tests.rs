//! Concrete checks of the library's rules and of the laws on chosen values.

use bevy_magic::plugin::{AssetKey, SpellAssetEvent};
use bevy_magic::registry::{registry_name, RuneDeserializeError, RuneRegistry};
use bevy_magic::ron_value::RonValue;
use bevy_magic::runes::{ActiveSpells, CastContext, PendingRune, RuneTiming};
use bevy_magic::spell::{spell_from_ron, RonError, SpellFormatError, SpellLoadError};
use bevy_magic::timer::{RuneTimer, RuneTimerMode};
use bevy_magic::{ActiveEnchantments, RuneSystemCache, Spellbook};

fn text(s: &str) -> RonValue {
    RonValue::String(s.to_string())
}

#[test]
fn once_timer_finishes_when_its_duration_is_reached() {
    let mut t = RuneTimer::new(10, RuneTimerMode::Once);
    assert!(!t.tick(3));
    assert_eq!(t.elapsed_nanos, 3);
    assert!(!t.tick(6));
    assert_eq!(t.elapsed_nanos, 9);
    assert!(t.tick(1));
    assert_eq!(t.elapsed_nanos, 10);
}

#[test]
fn repeating_timer_keeps_the_remainder() {
    let mut t = RuneTimer { duration_nanos: 10, elapsed_nanos: 5, mode: RuneTimerMode::Repeating };
    assert!(t.tick(27));
    assert_eq!(t.elapsed_nanos, 2);
    t.reset();
    assert_eq!(t.elapsed_nanos, 0);
    assert_eq!(t.duration_nanos, 10);
}

#[test]
fn zero_length_timer_finishes_on_every_tick() {
    let mut once = RuneTimer::new(0, RuneTimerMode::Once);
    assert!(once.tick(0));
    let mut rep = RuneTimer::new(0, RuneTimerMode::Repeating);
    assert!(rep.tick(0));
    assert_eq!(rep.elapsed_nanos, 0);
    assert!(rep.tick(5));
}

#[test]
fn repeating_timer_counts_periods_in_u32() {
    let mut t = RuneTimer::new(1, RuneTimerMode::Repeating);
    assert!(!t.tick(1u64 << 32));
    assert_eq!(t.elapsed_nanos, 0);
    let mut u = RuneTimer::new(1, RuneTimerMode::Repeating);
    assert!(u.tick((1u64 << 32) + 1));
}

#[test]
fn rune_waits_for_delay_then_repeats_on_interval() {
    let rune = PendingRune::new(4u64, RuneTiming { delay_nanos: 5, interval_nanos: 3 });
    assert_eq!(rune.timer.mode, RuneTimerMode::Repeating);
    let (next, fired) = rune.tick(4);
    assert!(!fired);
    let rune = next.unwrap();
    assert_eq!(rune.timer.elapsed_nanos, 4);
    let (next, fired) = rune.tick(1);
    assert!(fired);
    let rune = next.unwrap();
    assert_eq!(rune.timer, RuneTimer { duration_nanos: 3, elapsed_nanos: 0, mode: RuneTimerMode::Repeating });
    let (next, fired) = rune.tick(2);
    assert!(!fired);
    let (_, fired) = next.unwrap().tick(1);
    assert!(fired);
}

#[test]
fn untimed_rune_runs_once_immediately() {
    let rune = PendingRune::new(1u64, RuneTiming { delay_nanos: 0, interval_nanos: 0 });
    assert_eq!(rune.timer.mode, RuneTimerMode::Once);
    let (next, fired) = rune.tick(0);
    assert!(fired);
    assert!(next.is_none());
}

#[test]
fn active_spells_tick_fires_in_cast_order_with_contexts() {
    let mut active: ActiveSpells<u64, u64> = ActiveSpells::new();
    let now = RuneTiming { delay_nanos: 0, interval_nanos: 0 };
    let later = RuneTiming { delay_nanos: 100, interval_nanos: 0 };
    active.add_spell(CastContext::new(1).with_target(10), vec![PendingRune::new(7, now), PendingRune::new(8, later)]);
    active.add_spell(CastContext::new(2), vec![PendingRune::new(9, now)]);
    let fired = active.tick(50);
    assert_eq!(fired.len(), 2);
    assert_eq!(fired[0].0, 7);
    assert_eq!(fired[0].1.caster, 1);
    assert_eq!(fired[0].1.targets, vec![10]);
    assert_eq!(fired[1].0, 9);
    assert_eq!(fired[1].1.caster, 2);
    assert_eq!(active.spell_count(), 1);
    let fired = active.tick(50);
    assert_eq!(fired.len(), 1);
    assert_eq!(fired[0].0, 8);
    assert!(active.is_empty());
}

#[test]
fn cast_with_no_runes_is_dropped_on_next_tick() {
    let mut active: ActiveSpells<u64, u64> = ActiveSpells::new();
    active.add_spell(CastContext::new(1), vec![]);
    assert_eq!(active.spell_count(), 1);
    assert!(active.tick(0).is_empty());
    assert!(active.is_empty());
}

#[test]
fn retain_targets_keeps_the_live_ones_in_order() {
    let mut ctx = CastContext::new(1u64).with_targets(vec![2, 3, 4, 5]);
    ctx.retain_targets(&vec![true, false, true, false]);
    assert_eq!(ctx.caster, 1);
    assert_eq!(ctx.targets, vec![2, 4]);
    let copy = ctx.duplicate();
    assert_eq!(copy.targets, vec![2, 4]);
}

#[test]
fn registry_names_drop_rune_suffix_and_lowercase() {
    assert_eq!(registry_name("DamageRune"), "damage");
    assert_eq!(registry_name("TeleportRune"), "teleport");
    assert_eq!(registry_name("Rune"), "");
    assert_eq!(registry_name("Fire"), "fire");
    assert_eq!(registry_name("RuneOfFire"), "runeoffire");
    assert_eq!(registry_name("ÄRune"), "ä");
}

#[test]
fn register_then_lookup_finds_the_same_position() {
    let mut registry = RuneRegistry::new();
    let d = registry.register("DamageRune");
    let h = registry.register("HealRune");
    assert_eq!(d, 0);
    assert_eq!(h, 1);
    assert_eq!(registry.register("DamageRune"), 0);
    assert_eq!(registry.names.len(), 2);
    assert_eq!(registry.lookup(&"heal".to_string()), Some(1));
    assert_eq!(registry.lookup(&"status".to_string()), None);
}

#[test]
fn deserialize_rune_consumes_type_field() {
    let mut registry = RuneRegistry::new();
    registry.register("DamageRune");
    let value = RonValue::Mapping(vec![(text("amount"), RonValue::Bool(true)), (text("type"), text("damage"))]);
    match registry.deserialize_rune(value) {
        Ok((0, RonValue::Mapping(rest))) => {
            assert_eq!(rest.len(), 1);
            assert!(matches!(&rest[0].0, RonValue::String(s) if s == "amount"));
        },
        other => panic!("unexpected {:?}", other),
    }
}

#[test]
fn deserialize_rune_reports_missing_and_unknown_types() {
    let mut registry = RuneRegistry::new();
    registry.register("DamageRune");
    match registry.deserialize_rune(RonValue::Unit) {
        Err(RuneDeserializeError::MissingType(RonValue::Unit)) => {},
        other => panic!("unexpected {:?}", other),
    }
    match registry.deserialize_rune(RonValue::Mapping(vec![(text("amount"), RonValue::Unit)])) {
        Err(RuneDeserializeError::MissingType(RonValue::Mapping(rest))) => assert_eq!(rest.len(), 1),
        other => panic!("unexpected {:?}", other),
    }
    match registry.deserialize_rune(RonValue::Mapping(vec![(text("type"), RonValue::Bool(false)), (text("x"), RonValue::Unit)])) {
        Err(RuneDeserializeError::MissingType(RonValue::Mapping(rest))) => {
            assert_eq!(rest.len(), 1);
            assert!(matches!(&rest[0].0, RonValue::String(s) if s == "x"));
        },
        other => panic!("unexpected {:?}", other),
    }
    match registry.deserialize_rune(RonValue::Mapping(vec![(text("type"), text("frost"))])) {
        Err(RuneDeserializeError::UnknownType(name)) => assert_eq!(name, "frost"),
        other => panic!("unexpected {:?}", other),
    }
}

fn registry() -> RuneRegistry {
    let mut r = RuneRegistry::new();
    r.register("DamageRune");
    r.register("StatusRune");
    r
}

#[test]
fn spell_from_ron_reads_a_spell_file() {
    let bytes = br#"(
        name: "Fireball",
        description: "Hurls a ball of fire.",
        runes: [
            (type: "damage", amount: 75.0, damage_type: fire),
            (type: "status", effect: (kind: burn), duration_secs: 5.0),
        ],
    )"#;
    let plan = spell_from_ron(bytes, &registry()).expect("spell parses");
    assert_eq!(plan.name, "Fireball");
    assert_eq!(plan.description, "Hurls a ball of fire.");
    assert_eq!(plan.runes.len(), 2);
    assert_eq!(plan.runes[0].0, 0);
    assert_eq!(plan.runes[1].0, 1);
    match &plan.runes[0].1 {
        RonValue::Mapping(rest) => {
            assert_eq!(rest.len(), 2);
            assert!(rest.iter().all(|(k, _)| !matches!(k, RonValue::String(s) if s == "type")));
        },
        other => panic!("unexpected {:?}", other),
    }
    assert!(plan.stopped.is_none());
}

#[test]
fn spell_from_ron_stops_at_the_first_unmatched_rune() {
    let bytes = br#"(name: "Mixed", description: "", runes: [(type: "damage"), (type: "frost"), (amount: 1)])"#;
    let plan = spell_from_ron(bytes, &registry()).expect("document is a spell");
    assert_eq!(plan.runes.len(), 1);
    match plan.stopped {
        Some(RuneDeserializeError::UnknownType(name)) => assert_eq!(name, "frost"),
        other => panic!("unexpected {:?}", other),
    }
}

fn format_error(bytes: &[u8]) -> SpellFormatError {
    match spell_from_ron(bytes, &registry()) {
        Err(SpellLoadError::Ron(RonError::Format(e))) => e,
        other => panic!("unexpected {:?}", other),
    }
}

#[test]
fn spell_from_ron_reports_each_format_error() {
    assert_eq!(format_error(b"[1, 2]"), SpellFormatError::NotAMap);
    assert_eq!(format_error(br#"(description: "d", runes: [])"#), SpellFormatError::MissingName);
    assert_eq!(format_error(br#"(name: 3, description: "d", runes: [])"#), SpellFormatError::MissingName);
    assert_eq!(format_error(br#"(name: "n", runes: [])"#), SpellFormatError::MissingDescription);
    assert_eq!(format_error(br#"(name: "n", description: "d")"#), SpellFormatError::MissingRunes);
    assert_eq!(format_error(br#"(name: "n", description: "d", runes: 4)"#), SpellFormatError::RunesNotASequence);
    assert_eq!(SpellFormatError::NotAMap.message(), "expected top-level RON map");
    assert_eq!(SpellFormatError::MissingName.message(), "missing or invalid 'name' field");
    assert_eq!(SpellFormatError::MissingDescription.message(), "missing or invalid 'description' field");
    assert_eq!(SpellFormatError::MissingRunes.message(), "missing 'runes' field");
    assert_eq!(SpellFormatError::RunesNotASequence.message(), "invalid 'runes' field (expected sequence)");
}

#[test]
fn spell_from_ron_reports_parse_errors() {
    match spell_from_ron(b"(name: ", &registry()) {
        Err(SpellLoadError::Ron(RonError::Parse(_))) => {},
        other => panic!("unexpected {:?}", other),
    }
}

#[test]
fn empty_spell_file_has_no_runes() {
    let plan = spell_from_ron(br#"(name: "Empty", description: "nothing", runes: [])"#, &RuneRegistry::new()).unwrap();
    assert_eq!(plan.name, "Empty");
    assert!(plan.runes.is_empty());
    assert!(plan.stopped.is_none());
}

#[test]
fn cache_get_insert_remove() {
    let mut cache: RuneSystemCache<u64> = RuneSystemCache::new();
    let a = AssetKey::Index(1);
    let b = AssetKey::Uuid(77);
    assert_eq!(cache.get(a, 0), None);
    cache.insert(a, 0, 10);
    cache.insert(a, 1, 11);
    cache.insert(b, 0, 20);
    assert_eq!(cache.get(a, 0), Some(10));
    cache.insert(a, 0, 12);
    assert_eq!(cache.get(a, 0), Some(12));
    assert_eq!(cache.entries.len(), 3);
    cache.remove(a, 1);
    assert_eq!(cache.get(a, 1), None);
    assert_eq!(cache.get(b, 0), Some(20));
}

#[test]
fn cache_invalidation_only_for_modified_or_removed() {
    let mut cache: RuneSystemCache<u64> = RuneSystemCache::new();
    let a = AssetKey::Index(1);
    let b = AssetKey::Index(2);
    cache.insert(a, 0, 10);
    cache.insert(a, 1, 11);
    cache.insert(b, 0, 20);
    cache.on_asset_event(SpellAssetEvent::Added(a));
    cache.on_asset_event(SpellAssetEvent::Unused(a));
    cache.on_asset_event(SpellAssetEvent::LoadedWithDependencies(a));
    assert_eq!(cache.get(a, 1), Some(11));
    cache.on_asset_event(SpellAssetEvent::Modified(a));
    assert_eq!(cache.get(a, 0), None);
    assert_eq!(cache.get(a, 1), None);
    assert_eq!(cache.get(b, 0), Some(20));
    assert_eq!(cache.missing_rune_indices(a, 3), vec![0, 1, 2]);
    cache.on_asset_event(SpellAssetEvent::Removed(b));
    assert_eq!(cache.get(b, 0), None);
}

#[test]
fn cast_builds_only_missing_runes_and_schedules_cached_ones() {
    let mut cache: RuneSystemCache<u64> = RuneSystemCache::new();
    let a = AssetKey::Index(3);
    cache.insert(a, 1, 100);
    assert_eq!(cache.missing_rune_indices(a, 3), vec![0, 2]);
    cache.insert_all(a, &vec![(0, 200), (2, 202)]);
    assert!(cache.missing_rune_indices(a, 3).is_empty());
    let timings = vec![
        RuneTiming { delay_nanos: 1, interval_nanos: 0 },
        RuneTiming { delay_nanos: 2, interval_nanos: 5 },
        RuneTiming { delay_nanos: 3, interval_nanos: 0 },
    ];
    let runes = cache.cached_runes(a, &timings);
    assert_eq!(runes.len(), 3);
    assert_eq!(runes[0].system, 200);
    assert_eq!(runes[1].system, 100);
    assert_eq!(runes[1].interval_nanos, 5);
    assert_eq!(runes[2].timer.duration_nanos, 3);
    let other = cache.cached_runes(AssetKey::Index(4), &timings);
    assert!(other.is_empty());
}

#[test]
fn spellbook_removes_the_first_slot_of_a_spell() {
    let mut book: Spellbook<u64> = Spellbook::new();
    book.add_spell(1);
    book.add_spell(2);
    book.add_spell(1);
    book.add_spell(3);
    book.remove_spell(&1);
    assert_eq!(book.spells, vec![2, 1, 3]);
    assert!(book.contains(&1));
    book.remove_spell(&1);
    assert_eq!(book.spells, vec![2, 3]);
    assert!(!book.contains(&1));
    assert!(!book.is_empty());
    book.remove_spell(&9);
    assert_eq!(book.len(), 2);
}

#[test]
fn spellbook_with_a_repeated_handle_keeps_the_later_slot() {
    let book: Spellbook<u64> = Spellbook::new().with_spell(7).with_spell(7).with_spell(8);
    let mut book = book;
    book.remove_spell(&7);
    assert_eq!(book.spells, vec![7, 8]);
    assert_eq!(book.len(), 2);
}

#[test]
fn enchantment_lookup_is_case_sensitive() {
    let mut active: ActiveEnchantments<u64, u64> = ActiveEnchantments::new();
    let e: bevy_magic::Enchantment<u64, u8, u8> = bevy_magic::Enchantment::from_runes("Frost", "", 1, vec![]);
    active.apply(bevy_magic::ActiveEnchantmentEntry::from_enchantment(&e, &vec![]));
    assert!(active.has_enchantment("Frost"));
    assert!(!active.has_enchantment("frost"));
    active.remove_enchantment("frost");
    assert_eq!(active.count(), 1);
}


#[test]
fn remove_undoes_apply_under_a_fresh_name() {
    let mut active: ActiveEnchantments<u64, u64> = ActiveEnchantments::new();
    let timing = RuneTiming { delay_nanos: 5, interval_nanos: 0 };
    for name in ["A", "B"] {
        let e: bevy_magic::Enchantment<u64, u8, u8> = bevy_magic::Enchantment::from_runes(name, "", 1, vec![]);
        active.apply(bevy_magic::ActiveEnchantmentEntry::from_enchantment(&e, &vec![(1, timing)]));
    }
    let before = active.names();
    let c: bevy_magic::Enchantment<u64, u8, u8> = bevy_magic::Enchantment::from_runes("C", "", 2, vec![]);
    active.apply(bevy_magic::ActiveEnchantmentEntry::from_enchantment(&c, &vec![(2, timing)]));
    assert_eq!(active.count(), 3);
    active.remove_enchantment("C");
    assert_eq!(active.names(), before);
}

#[test]
fn added_spell_is_found_and_removed_spell_is_gone() {
    let mut book: Spellbook<u64> = Spellbook::new();
    book.add_spell(4);
    assert!(book.contains(&4));
    book.remove_spell(&4);
    assert!(!book.contains(&4));
    assert!(book.is_empty());
}

#[test]
fn rune_runs_on_the_tick_that_reaches_its_delay() {
    let mut rune = PendingRune::new(1u64, RuneTiming { delay_nanos: 10, interval_nanos: 0 });
    for delta in [3u64, 3, 3] {
        let (next, fired) = rune.tick(delta);
        assert!(!fired);
        rune = next.unwrap();
    }
    assert_eq!(rune.timer.elapsed_nanos, 9);
    let (next, fired) = rune.tick(3);
    assert!(fired);
    assert!(next.is_none());
}

#[test]
fn repeating_rune_skips_a_tick_whose_period_count_wraps() {
    let rune = PendingRune::new(1u64, RuneTiming { delay_nanos: 1, interval_nanos: 1 });
    let (next, fired) = rune.tick(1u64 << 32);
    assert!(!fired);
    let rune = next.unwrap();
    assert_eq!(rune.timer.elapsed_nanos, 0);
    let (next, fired) = rune.tick(1);
    assert!(fired);
    assert!(next.is_some());
}

#[test]
fn repeating_rune_runs_again_after_each_interval_without_carrying_overshoot() {
    let rune = PendingRune::new(5u64, RuneTiming { delay_nanos: 10, interval_nanos: 4 });
    let (next, fired) = rune.tick(10);
    assert!(fired);
    let mut rune = next.unwrap();
    let restarted = RuneTimer { duration_nanos: 4, elapsed_nanos: 0, mode: RuneTimerMode::Repeating };
    assert_eq!(rune.timer, restarted);
    for _ in 0..3 {
        let (next, fired) = rune.tick(1);
        assert!(!fired);
        rune = next.unwrap();
    }
    let (next, fired) = rune.tick(1);
    assert!(fired);
    let rune = next.unwrap();
    assert_eq!(rune.timer, restarted);
    let (next, fired) = rune.tick(3);
    assert!(!fired);
    let (next, fired) = next.unwrap().tick(3);
    assert!(fired);
    assert_eq!(next.unwrap().timer, restarted);
}

#[test]
fn repeating_rune_runs_on_every_tick_as_long_as_its_interval() {
    let rune = PendingRune::new(6u64, RuneTiming { delay_nanos: 0, interval_nanos: 5 });
    let (next, fired) = rune.tick(0);
    assert!(fired);
    let mut rune = next.unwrap();
    let mut runs = 1;
    for delta in [5u64, 7, 100, 5] {
        let (next, fired) = rune.tick(delta);
        assert!(fired);
        runs += 1;
        rune = next.unwrap();
        assert_eq!(rune.system, 6);
        assert_eq!(rune.timer.elapsed_nanos, 0);
    }
    assert_eq!(runs, 5);
}

#[test]
fn instant_then_delayed_rune_in_one_cast() {
    let mut active: ActiveSpells<u64, u64> = ActiveSpells::new();
    let instant = RuneTiming { delay_nanos: 0, interval_nanos: 0 };
    let delayed = RuneTiming { delay_nanos: 10, interval_nanos: 0 };
    active.add_spell(CastContext::new(1).with_target(2), vec![PendingRune::new(70, instant), PendingRune::new(80, delayed)]);
    let fired = active.tick(3);
    assert_eq!(fired.len(), 1);
    assert_eq!(fired[0].0, 70);
    assert_eq!(fired[0].1.caster, 1);
    assert_eq!(fired[0].1.targets, vec![2]);
    assert_eq!(active.spell_count(), 1);
    assert_eq!(active.spells[0].runes.len(), 1);
    assert_eq!(active.spells[0].runes[0].timer.elapsed_nanos, 3);
    assert!(active.tick(3).is_empty());
    assert!(active.tick(3).is_empty());
    assert_eq!(active.spell_count(), 1);
    let fired = active.tick(3);
    assert_eq!(fired.len(), 1);
    assert_eq!(fired[0].0, 80);
    assert_eq!(fired[0].1.caster, 1);
    assert_eq!(fired[0].1.targets, vec![2]);
    assert!(active.is_empty());
}

#[test]
fn removed_enchantment_never_runs_again() {
    let mut active: ActiveEnchantments<u64, u64> = ActiveEnchantments::new();
    let every = RuneTiming { delay_nanos: 0, interval_nanos: 1 };
    let poison: bevy_magic::Enchantment<u64, u8, u8> = bevy_magic::Enchantment::from_runes("Poison", "", 1, vec![]);
    let frost: bevy_magic::Enchantment<u64, u8, u8> = bevy_magic::Enchantment::from_runes("Frost", "", 2, vec![]);
    active.apply(bevy_magic::ActiveEnchantmentEntry::from_enchantment(&poison, &vec![(11, every)]));
    active.apply(bevy_magic::ActiveEnchantmentEntry::from_enchantment(&frost, &vec![(22, every)]));
    let fired = active.tick(9, 1);
    assert_eq!(fired.iter().map(|f| f.0).collect::<Vec<u64>>(), vec![11, 22]);
    active.remove_enchantment("Poison");
    for _ in 0..10 {
        let fired = active.tick(9, 1);
        assert_eq!(fired.len(), 1);
        assert_eq!(fired[0].0, 22);
        assert_eq!(fired[0].1.caster, 2);
        assert_eq!(fired[0].1.targets, vec![9]);
        assert!(!active.has_enchantment("Poison"));
    }
}

#[test]
fn rune_systems_are_built_once_over_many_casts() {
    let mut cache: RuneSystemCache<u64> = RuneSystemCache::new();
    let spell = AssetKey::Uuid(77);
    let timings = vec![
        RuneTiming { delay_nanos: 0, interval_nanos: 0 },
        RuneTiming { delay_nanos: 5, interval_nanos: 0 },
        RuneTiming { delay_nanos: 1, interval_nanos: 2 },
    ];
    let mut built: Vec<usize> = Vec::new();
    let mut schedules = Vec::new();
    for cast in 0..4u64 {
        let missing = cache.missing_rune_indices(spell, timings.len());
        let registered: Vec<(usize, u64)> = missing.iter().map(|&i| (i, 100 * (cast + 1) + i as u64)).collect();
        built.extend(missing.iter().copied());
        cache.insert_all(spell, &registered);
        schedules.push(cache.cached_runes(spell, &timings).iter().map(|r| r.system).collect::<Vec<u64>>());
    }
    assert_eq!(built, vec![0, 1, 2]);
    for s in &schedules {
        assert_eq!(s, &vec![100, 101, 102]);
    }
}

#[test]
fn delayed_enchantment_runs_once_then_goes() {
    let mut active: ActiveEnchantments<u64, u64> = ActiveEnchantments::new();
    let e: bevy_magic::Enchantment<u64, u8, u8> = bevy_magic::Enchantment::from_runes("Doom", "", 3, vec![]);
    active.apply(bevy_magic::ActiveEnchantmentEntry::from_enchantment(&e, &vec![(5, RuneTiming { delay_nanos: 10, interval_nanos: 0 })]));
    for elapsed in [3u64, 6, 9] {
        assert!(active.tick(8, 3).is_empty());
        assert_eq!(active.count(), 1);
        assert_eq!(active.enchantments[0].rune_executions[0].timer.elapsed_nanos, elapsed);
    }
    let fired = active.tick(8, 3);
    assert_eq!(fired.len(), 1);
    assert_eq!(fired[0].0, 5);
    assert_eq!(fired[0].1.caster, 3);
    assert_eq!(fired[0].1.targets, vec![8]);
    assert!(active.is_empty());
    for _ in 0..5 {
        assert!(active.tick(8, 100).is_empty());
    }
}

#[test]
fn repeating_enchantment_runs_again_and_stays() {
    let mut active: ActiveEnchantments<u64, u64> = ActiveEnchantments::new();
    let e: bevy_magic::Enchantment<u64, u8, u8> = bevy_magic::Enchantment::from_runes("Regen", "", 4, vec![]);
    active.apply(bevy_magic::ActiveEnchantmentEntry::from_enchantment(&e, &vec![(6, RuneTiming { delay_nanos: 0, interval_nanos: 4 })]));
    let fired = active.tick(8, 1);
    assert_eq!(fired.len(), 1);
    assert_eq!(fired[0].1.caster, 4);
    for _ in 0..3 {
        assert!(active.tick(8, 1).is_empty());
    }
    assert_eq!(active.tick(8, 1).len(), 1);
    let mut runs = 2;
    for _ in 0..40 {
        runs += active.tick(8, 1).len();
        assert_eq!(active.count(), 1);
        assert!(active.has_enchantment("Regen"));
    }
    assert_eq!(runs, 12);
}
