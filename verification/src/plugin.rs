//! The rune-system cache and the decisions of the cast pipeline: which runes of a spell still
//! need a system, which cached systems a cast schedules, and which asset events invalidate
//! the cache.

use vstd::prelude::*;

use crate::runes::{PendingRune, RuneTiming};

verus! {

/// A spell asset's identity as plain values: a generational index (as its 64 bits) or a UUID
/// (as its 128 bits).
#[derive(Clone, Copy, Debug, PartialEq, Eq, Structural, Hash)]
pub enum AssetKey {
    /// An index into the asset storage, as `generation << 32 | index`.
    Index(u64),
    /// A stable UUID.
    Uuid(u128),
}

/// A cache slot: the spell, the rune's index in the spell, and the rune's system.
pub type CacheEntry<S> = (AssetKey, usize, S);

/// The system cached for `key` in `entries`: the last entry with that key, if any.
pub open spec fn lookup<S>(entries: Seq<CacheEntry<S>>, key: (AssetKey, usize)) -> Option<S>
    decreases entries.len(),
{
    if entries.len() == 0 {
        None
    } else if entries.last().0 == key.0 && entries.last().1 == key.1 {
        Some(entries.last().2)
    } else {
        lookup(entries.drop_last(), key)
    }
}

/// The entries that are not for `spell`, in order.
pub open spec fn without_spell<S>(entries: Seq<CacheEntry<S>>, spell: AssetKey) -> Seq<CacheEntry<S>>
    decreases entries.len(),
{
    if entries.len() == 0 {
        Seq::empty()
    } else {
        let prev = without_spell(entries.drop_last(), spell);
        if entries.last().0 != spell {
            prev.push(entries.last())
        } else {
            prev
        }
    }
}

/// The entries that are not for `key`, in order.
pub open spec fn without_key<S>(entries: Seq<CacheEntry<S>>, key: (AssetKey, usize)) -> Seq<CacheEntry<S>>
    decreases entries.len(),
{
    if entries.len() == 0 {
        Seq::empty()
    } else {
        let prev = without_key(entries.drop_last(), key);
        if !(entries.last().0 == key.0 && entries.last().1 == key.1) {
            prev.push(entries.last())
        } else {
            prev
        }
    }
}

/// The map a list of entries stands for.
pub open spec fn entries_map<S>(entries: Seq<CacheEntry<S>>) -> Map<(AssetKey, usize), S> {
    Map::new(|k: (AssetKey, usize)| lookup(entries, k) is Some, |k: (AssetKey, usize)| lookup(entries, k)->0)
}

proof fn lemma_lookup_push<S>(entries: Seq<CacheEntry<S>>, e: CacheEntry<S>, key: (AssetKey, usize))
    ensures
        lookup(entries.push(e), key) == if e.0 == key.0 && e.1 == key.1 {
            Some(e.2)
        } else {
            lookup(entries, key)
        },
{
    assert(entries.push(e).drop_last() == entries);
}

proof fn lemma_lookup_without_spell<S>(entries: Seq<CacheEntry<S>>, spell: AssetKey, key: (AssetKey, usize))
    ensures
        lookup(without_spell(entries, spell), key) == if key.0 == spell {
            None
        } else {
            lookup(entries, key)
        },
    decreases entries.len(),
{
    if entries.len() > 0 {
        lemma_lookup_without_spell(entries.drop_last(), spell, key);
        if entries.last().0 != spell {
            lemma_lookup_push(without_spell(entries.drop_last(), spell), entries.last(), key);
        }
    }
}

proof fn lemma_lookup_without_key<S>(entries: Seq<CacheEntry<S>>, gone: (AssetKey, usize), key: (AssetKey, usize))
    ensures
        lookup(without_key(entries, gone), key) == if key == gone {
            None
        } else {
            lookup(entries, key)
        },
    decreases entries.len(),
{
    if entries.len() > 0 {
        lemma_lookup_without_key(entries.drop_last(), gone, key);
        if !(entries.last().0 == gone.0 && entries.last().1 == gone.1) {
            lemma_lookup_push(without_key(entries.drop_last(), gone), entries.last(), key);
        }
    }
}

/// The indices below `count` of the runes of `spell` that have no cached system, ascending.
pub open spec fn missing_indices<S>(cache: Map<(AssetKey, usize), S>, spell: AssetKey, count: nat) -> Seq<usize>
    decreases count,
{
    if count == 0 {
        Seq::empty()
    } else {
        let prev = missing_indices(cache, spell, (count - 1) as nat);
        if cache.contains_key((spell, (count - 1) as usize)) {
            prev
        } else {
            prev.push((count - 1) as usize)
        }
    }
}

/// The cache after inserting each (rune index, system) pair of `registered` for `spell`, in
/// order.
pub open spec fn inserted_all<S>(cache: Map<(AssetKey, usize), S>, spell: AssetKey, registered: Seq<(usize, S)>) -> Map<(AssetKey, usize), S>
    decreases registered.len(),
{
    if registered.len() == 0 {
        cache
    } else {
        inserted_all(cache, spell, registered.drop_last()).insert((spell, registered.last().0), registered.last().1)
    }
}

/// The runes a cast of `spell` schedules: for each rune index in order that has a cached
/// system, that system with the rune's timing.
pub open spec fn cached_schedule<S: Copy>(cache: Map<(AssetKey, usize), S>, spell: AssetKey, timings: Seq<RuneTiming>) -> Seq<PendingRune<S>>
    decreases timings.len(),
{
    if timings.len() == 0 {
        Seq::empty()
    } else {
        let prev = cached_schedule(cache, spell, timings.drop_last());
        let key = (spell, (timings.len() - 1) as usize);
        if cache.contains_key(key) {
            prev.push(PendingRune::<S>::scheduled(cache[key], timings.last()))
        } else {
            prev
        }
    }
}

/// The rune systems built for each loaded spell, keyed by (spell, rune index), so that every
/// rune is turned into a system once and reused by later casts.
pub struct RuneSystemCache<S> {
    /// The cached systems; the last entry for a key is the one that counts.
    pub entries: Vec<CacheEntry<S>>,
}

impl<S> View for RuneSystemCache<S> {
    type V = Map<(AssetKey, usize), S>;

    open spec fn view(&self) -> Map<(AssetKey, usize), S> {
        entries_map(self.entries@)
    }
}

/// Changes to spell assets, as the asset server reports them.
#[derive(Clone, Copy, Debug, PartialEq, Eq, Structural)]
pub enum SpellAssetEvent {
    Added(AssetKey),
    Modified(AssetKey),
    Removed(AssetKey),
    Unused(AssetKey),
    LoadedWithDependencies(AssetKey),
}

impl<S: Copy> RuneSystemCache<S> {
    /// An empty cache.
    pub fn new() -> (c: RuneSystemCache<S>)
        ensures
            c@ == Map::<(AssetKey, usize), S>::empty(),
    {
        let c = RuneSystemCache { entries: Vec::new() };
        assert(c@ =~= Map::<(AssetKey, usize), S>::empty());
        c
    }

    /// The system cached for rune `rune_index` of `spell`, if any.
    pub fn get(&self, spell: AssetKey, rune_index: usize) -> (r: Option<S>)
        ensures
            r == (if self@.contains_key((spell, rune_index)) {
                Some(self@[(spell, rune_index)])
            } else {
                None
            }),
    {
        let n = self.entries.len();
        let mut i = n;
        assert(self.entries@.take(n as int) == self.entries@);
        while i > 0
            invariant
                i <= n,
                n == self.entries.len(),
                lookup(self.entries@, (spell, rune_index)) == lookup(self.entries@.take(i as int), (spell, rune_index)),
            decreases i,
        {
            let e = self.entries[i - 1];
            assert(self.entries@.take(i as int).drop_last() == self.entries@.take(i - 1));
            if e.0 == spell && e.1 == rune_index {
                return Some(e.2);
            }
            i = i - 1;
        }
        None
    }

    /// Whether a system is cached for rune `rune_index` of `spell`.
    pub fn contains(&self, spell: AssetKey, rune_index: usize) -> (b: bool)
        ensures
            b == self@.contains_key((spell, rune_index)),
    {
        self.get(spell, rune_index).is_some()
    }

    /// Caches `system` for rune `rune_index` of `spell`, replacing any earlier one.
    pub fn insert(&mut self, spell: AssetKey, rune_index: usize, system: S)
        ensures
            final(self)@ == old(self)@.insert((spell, rune_index), system),
    {
        self.remove(spell, rune_index);
        let ghost before = self.entries@;
        self.entries.push((spell, rune_index, system));
        proof {
            assert forall|k: (AssetKey, usize)| #[trigger] lookup(self.entries@, k) == lookup(before.push((spell, rune_index, system)), k) by {}
            assert forall|k: (AssetKey, usize)| #[trigger] lookup(self.entries@, k) == (if k == (spell, rune_index) {
                Some(system)
            } else {
                lookup(before, k)
            }) by {
                lemma_lookup_push(before, (spell, rune_index, system), k);
            }
        }
        assert(entries_map(before) == old(self)@.remove((spell, rune_index)));
        assert forall|k: (AssetKey, usize)| #[trigger] self@.contains_key(k) == old(self)@.insert(
            (spell, rune_index),
            system,
        ).contains_key(k) by {
            assert(lookup(before, k) is Some == entries_map(before).contains_key(k));
        }
        assert forall|k: (AssetKey, usize)| #[trigger] self@.contains_key(k) implies self@[k] == old(self)@.insert(
            (spell, rune_index),
            system,
        )[k] by {
            if k != (spell, rune_index) {
                assert(entries_map(before).contains_key(k));
                assert(entries_map(before)[k] == lookup(before, k)->0);
                assert(old(self)@.remove((spell, rune_index))[k] == old(self)@[k]);
            }
        }
        assert(self@ =~= old(self)@.insert((spell, rune_index), system));
    }

    /// Drops the entry of rune `rune_index` of `spell`, if any.
    pub fn remove(&mut self, spell: AssetKey, rune_index: usize)
        ensures
            final(self)@ == old(self)@.remove((spell, rune_index)),
    {
        let ghost old_entries = self.entries@;
        let mut kept: Vec<CacheEntry<S>> = Vec::new();
        let n = self.entries.len();
        for i in 0..n
            invariant
                n == self.entries.len(),
                old_entries == self.entries@,
                kept@ == without_key(self.entries@.take(i as int), (spell, rune_index)),
        {
            assert(self.entries@.take(i + 1).drop_last() == self.entries@.take(i as int));
            let e = self.entries[i];
            if !(e.0 == spell && e.1 == rune_index) {
                kept.push(e);
            }
        }
        assert(self.entries@.take(n as int) == self.entries@);
        self.entries = kept;
        proof {
            assert forall|k: (AssetKey, usize)| #[trigger] lookup(self.entries@, k) == (if k == (spell, rune_index) {
                None
            } else {
                lookup(old_entries, k)
            }) by {
                lemma_lookup_without_key(old_entries, (spell, rune_index), k);
            }
        }
        assert(self@ =~= old(self)@.remove((spell, rune_index)));
    }

    /// Drops every entry of `spell` (after the asset was modified or unloaded); the entries
    /// of other spells stay.
    pub fn clear_spell(&mut self, spell: AssetKey)
        ensures
            final(self)@ == old(self)@.restrict(old(self)@.dom().filter(|k: (AssetKey, usize)| k.0 != spell)),
    {
        let ghost old_entries = self.entries@;
        let mut kept: Vec<CacheEntry<S>> = Vec::new();
        let n = self.entries.len();
        for i in 0..n
            invariant
                n == self.entries.len(),
                old_entries == self.entries@,
                kept@ == without_spell(self.entries@.take(i as int), spell),
        {
            assert(self.entries@.take(i + 1).drop_last() == self.entries@.take(i as int));
            let e = self.entries[i];
            if e.0 != spell {
                kept.push(e);
            }
        }
        assert(self.entries@.take(n as int) == self.entries@);
        self.entries = kept;
        proof {
            assert forall|k: (AssetKey, usize)| #[trigger] lookup(self.entries@, k) == (if k.0 == spell {
                None
            } else {
                lookup(old_entries, k)
            }) by {
                lemma_lookup_without_spell(old_entries, spell, k);
            }
        }
        assert(self@ =~= old(self)@.restrict(old(self)@.dom().filter(|k: (AssetKey, usize)| k.0 != spell)));
    }

    /// The indices of the first `rune_count` runes of `spell` that have no cached system yet,
    /// ascending: the runes whose systems a cast must build first.
    pub fn missing_rune_indices(&self, spell: AssetKey, rune_count: usize) -> (r: Vec<usize>)
        ensures
            r@ == missing_indices(self@, spell, rune_count as nat),
    {
        let mut r: Vec<usize> = Vec::new();
        for i in 0..rune_count
            invariant
                r@ == missing_indices(self@, spell, i as nat),
        {
            if !self.contains(spell, i) {
                r.push(i);
            }
        }
        r
    }

    /// Caches each (rune index, system) pair of `registered` for `spell`, in order.
    pub fn insert_all(&mut self, spell: AssetKey, registered: &Vec<(usize, S)>)
        ensures
            final(self)@ == inserted_all(old(self)@, spell, registered@),
    {
        let ghost start = self@;
        for i in 0..registered.len()
            invariant
                self@ == inserted_all(start, spell, registered@.take(i as int)),
        {
            assert(registered@.take(i + 1).drop_last() == registered@.take(i as int));
            let (index, system) = registered[i];
            self.insert(spell, index, system);
        }
        assert(registered@.take(registered.len() as int) == registered@);
    }

    /// The runes a cast of `spell` schedules, given the timing of each of its runes: every
    /// rune with a cached system, in order, with its timer counting down its delay.
    pub fn cached_runes(&self, spell: AssetKey, timings: &Vec<RuneTiming>) -> (r: Vec<PendingRune<S>>)
        ensures
            r@ == cached_schedule(self@, spell, timings@),
    {
        let mut r: Vec<PendingRune<S>> = Vec::new();
        for i in 0..timings.len()
            invariant
                r@ == cached_schedule(self@, spell, timings@.take(i as int)),
        {
            assert(timings@.take(i + 1).drop_last() == timings@.take(i as int));
            match self.get(spell, i) {
                Some(system) => r.push(PendingRune::new(system, timings[i])),
                None => {},
            }
        }
        assert(timings@.take(timings.len() as int) == timings@);
        r
    }

    /// Reacts to a change of a spell asset: a modified or removed spell loses its cached
    /// systems, so the next cast builds them again; other events change nothing.
    pub fn on_asset_event(&mut self, event: SpellAssetEvent)
        ensures
            match event {
                SpellAssetEvent::Modified(id) | SpellAssetEvent::Removed(id) => final(self)@ == old(self)@.restrict(
                    old(self)@.dom().filter(|k: (AssetKey, usize)| k.0 != id),
                ),
                _ => final(self)@ == old(self)@,
            },
    {
        match event {
            SpellAssetEvent::Modified(id) => self.clear_spell(id),
            SpellAssetEvent::Removed(id) => self.clear_spell(id),
            _ => {},
        }
    }
}

} // verus!

verus! {

proof fn lemma_missing_index_listed<S>(cache: Map<(AssetKey, usize), S>, spell: AssetKey, count: nat, i: usize)
    requires
        i < count,
        !cache.contains_key((spell, i)),
    ensures
        missing_indices(cache, spell, count).contains(i),
    decreases count,
{
    let prev = missing_indices(cache, spell, (count - 1) as nat);
    if i < count - 1 {
        lemma_missing_index_listed(cache, spell, (count - 1) as nat, i);
        let j = choose|j: int| 0 <= j < prev.len() && prev[j] == i;
        if !cache.contains_key((spell, (count - 1) as usize)) {
            assert(prev.push((count - 1) as usize)[j] == i);
        }
    } else {
        assert(missing_indices(cache, spell, count) == prev.push(i));
        assert(prev.push(i)[prev.len() as int] == i);
    }
}

proof fn lemma_none_missing<S>(cache: Map<(AssetKey, usize), S>, spell: AssetKey, count: nat)
    requires
        count <= usize::MAX + 1,
        forall|i: usize| i < count ==> cache.contains_key((spell, i)),
    ensures
        missing_indices(cache, spell, count) == Seq::<usize>::empty(),
    decreases count,
{
    if count > 0 {
        lemma_none_missing(cache, spell, (count - 1) as nat);
        assert(cache.contains_key((spell, (count - 1) as usize)));
    }
}

proof fn lemma_inserted_all_keeps<S>(cache: Map<(AssetKey, usize), S>, spell: AssetKey, registered: Seq<(usize, S)>, k: (AssetKey, usize))
    requires
        cache.contains_key(k) || exists|j: int| 0 <= j < registered.len() && k == (spell, #[trigger] registered[j].0),
    ensures
        inserted_all(cache, spell, registered).contains_key(k),
    decreases registered.len(),
{
    if registered.len() > 0 {
        if k == (spell, registered.last().0) {
        } else {
            if !cache.contains_key(k) {
                let j = choose|j: int| 0 <= j < registered.len() && k == (spell, #[trigger] registered[j].0);
                assert(j != registered.len() - 1);
                assert(registered.drop_last()[j] == registered[j]);
            }
            lemma_inserted_all_keeps(cache, spell, registered.drop_last(), k);
        }
    }
}

/// Registering a system for every rune that a cast found missing leaves no rune of that
/// spell missing: every rune of a spell is built once, and later casts reuse the cache.
pub proof fn law_registration_completes<S>(
    cache: Map<(AssetKey, usize), S>,
    spell: AssetKey,
    count: nat,
    registered: Seq<(usize, S)>,
)
    requires
        count <= usize::MAX + 1,
        registered.len() == missing_indices(cache, spell, count).len(),
        forall|j: int| 0 <= j < registered.len() ==> #[trigger] registered[j].0 == missing_indices(cache, spell, count)[j],
    ensures
        forall|i: usize| i < count ==> #[trigger] inserted_all(cache, spell, registered).contains_key((spell, i)),
        missing_indices(inserted_all(cache, spell, registered), spell, count) == Seq::<usize>::empty(),
{
    let missing = missing_indices(cache, spell, count);
    assert forall|i: usize| i < count implies #[trigger] inserted_all(cache, spell, registered).contains_key((spell, i)) by {
        if !cache.contains_key((spell, i)) {
            lemma_missing_index_listed(cache, spell, count, i);
            let j = choose|j: int| 0 <= j < missing.len() && missing[j] == i;
            assert(registered[j].0 == i);
        }
        lemma_inserted_all_keeps(cache, spell, registered, (spell, i));
    }
    lemma_none_missing(inserted_all(cache, spell, registered), spell, count);
}

/// When every rune of a spell has a cached system, a cast schedules every rune, in order,
/// each with its cached system and its own timing.
pub proof fn law_complete_cache_schedules_every_rune<S: Copy>(
    cache: Map<(AssetKey, usize), S>,
    spell: AssetKey,
    timings: Seq<RuneTiming>,
)
    requires
        timings.len() <= usize::MAX + 1,
        forall|i: usize| i < timings.len() ==> cache.contains_key((spell, i)),
    ensures
        cached_schedule(cache, spell, timings).len() == timings.len(),
        forall|i: int| 0 <= i < timings.len() ==> #[trigger] cached_schedule(cache, spell, timings)[i]
            == PendingRune::<S>::scheduled(cache[(spell, i as usize)], timings[i]),
    decreases timings.len(),
{
    if timings.len() > 0 {
        let prev = timings.drop_last();
        assert forall|i: usize| i < prev.len() implies cache.contains_key((spell, i)) by {}
        law_complete_cache_schedules_every_rune(cache, spell, prev);
        assert(cache.contains_key((spell, (timings.len() - 1) as usize)));
        assert forall|i: int| 0 <= i < timings.len() implies #[trigger] cached_schedule(cache, spell, timings)[i]
            == PendingRune::<S>::scheduled(cache[(spell, i as usize)], timings[i]) by {
            if i < timings.len() - 1 {
                assert(prev[i] == timings[i]);
            }
        }
    }
}

/// After a spell asset is modified or removed, every one of its runes is missing from the
/// cache, so the next cast builds each of them again.
pub proof fn law_invalidated_spell_rebuilds_every_rune<S>(
    cache: Map<(AssetKey, usize), S>,
    spell: AssetKey,
    count: nat,
)
    requires
        count <= usize::MAX + 1,
    ensures
        missing_indices(cache.restrict(cache.dom().filter(|k: (AssetKey, usize)| k.0 != spell)), spell, count)
            == Seq::new(count, |i: int| i as usize),
    decreases count,
{
    let cleared = cache.restrict(cache.dom().filter(|k: (AssetKey, usize)| k.0 != spell));
    if count > 0 {
        law_invalidated_spell_rebuilds_every_rune(cache, spell, (count - 1) as nat);
        assert(!cleared.contains_key((spell, (count - 1) as usize)));
        assert(Seq::new(count, |i: int| i as usize) =~= Seq::new((count - 1) as nat, |i: int| i as usize).push((count - 1) as usize));
    } else {
        assert(Seq::new(count, |i: int| i as usize) =~= Seq::<usize>::empty());
    }
}

/// The cache after a sequence of casts of `spell`, each of which cached the systems in its
/// entry of `registrations`.
pub open spec fn cache_after_casts<S>(
    cache: Map<(AssetKey, usize), S>,
    spell: AssetKey,
    registrations: Seq<Seq<(usize, S)>>,
) -> Map<(AssetKey, usize), S>
    decreases registrations.len(),
{
    if registrations.len() == 0 {
        cache
    } else {
        inserted_all(cache_after_casts(cache, spell, registrations.drop_last()), spell, registrations.last())
    }
}

/// Whether `registered` holds one system for each rune of `spell` (of the first `count`)
/// that `cache` lacks, in the order `missing_rune_indices` lists them: what a cast builds.
pub open spec fn registers_missing<S>(
    cache: Map<(AssetKey, usize), S>,
    spell: AssetKey,
    count: nat,
    registered: Seq<(usize, S)>,
) -> bool {
    &&& registered.len() == missing_indices(cache, spell, count).len()
    &&& forall|j: int| 0 <= j < registered.len() ==> #[trigger] registered[j].0 == missing_indices(cache, spell, count)[j]
}

proof fn lemma_missing_indices_ascending<S>(cache: Map<(AssetKey, usize), S>, spell: AssetKey, count: nat)
    requires
        count <= usize::MAX + 1,
    ensures
        forall|a: int, b: int| 0 <= a < b < missing_indices(cache, spell, count).len() ==> #[trigger] missing_indices(
            cache,
            spell,
            count,
        )[a] < #[trigger] missing_indices(cache, spell, count)[b],
        forall|a: int| 0 <= a < missing_indices(cache, spell, count).len() ==> #[trigger] missing_indices(cache, spell, count)[a]
            < count,
    decreases count,
{
    if count > 0 {
        let prev = missing_indices(cache, spell, (count - 1) as nat);
        let cur = missing_indices(cache, spell, count);
        lemma_missing_indices_ascending(cache, spell, (count - 1) as nat);
        assert forall|a: int| 0 <= a < cur.len() implies #[trigger] cur[a] < count by {
            if a < prev.len() {
                assert(cur[a] == prev[a]);
            }
        }
        assert forall|a: int, b: int| 0 <= a < b < cur.len() implies #[trigger] cur[a] < #[trigger] cur[b] by {
            assert(cur[a] == prev[a]);
            if b < prev.len() {
                assert(cur[b] == prev[b]);
            } else {
                assert(prev[a] < count - 1);
            }
        }
    }
}

proof fn lemma_later_casts_change_nothing<S>(
    cache: Map<(AssetKey, usize), S>,
    spell: AssetKey,
    count: nat,
    registrations: Seq<Seq<(usize, S)>>,
    k: int,
)
    requires
        count <= usize::MAX + 1,
        1 <= k <= registrations.len(),
        forall|c: int| 0 <= c < registrations.len() ==> registers_missing(
            #[trigger] cache_after_casts(cache, spell, registrations.take(c)),
            spell,
            count,
            registrations[c],
        ),
    ensures
        cache_after_casts(cache, spell, registrations.take(k)) == cache_after_casts(cache, spell, registrations.take(1)),
        forall|i: usize| i < count ==> #[trigger] cache_after_casts(cache, spell, registrations.take(k)).contains_key((spell, i)),
    decreases k,
{
    let first = cache_after_casts(cache, spell, registrations.take(1));
    if k == 1 {
        assert(registrations.take(1).drop_last() =~= registrations.take(0));
        assert(registrations.take(1).last() == registrations[0]);
        assert(registers_missing(cache_after_casts(cache, spell, registrations.take(0)), spell, count, registrations[0]));
        assert(registrations.take(0) =~= Seq::<Seq<(usize, S)>>::empty());
        law_registration_completes(cache, spell, count, registrations[0]);
    } else {
        lemma_later_casts_change_nothing(cache, spell, count, registrations, k - 1);
        let before = cache_after_casts(cache, spell, registrations.take(k - 1));
        assert(registers_missing(before, spell, count, registrations[k - 1]));
        lemma_none_missing(before, spell, count);
        assert(registrations.take(k).drop_last() =~= registrations.take(k - 1));
        assert(registrations.take(k).last() == registrations[k - 1]);
    }
}

/// Over any sequence of casts of a spell whose asset does not change, where each cast builds
/// a system exactly for the runes the cache lacks, each rune's system is built once: the first
/// cast builds every rune that was missing, each once, in ascending order; every later cast
/// builds nothing and leaves the cache as the first cast left it; and every cast schedules
/// every rune with the same cached system and its own timing.
pub proof fn law_rune_systems_built_once<S: Copy>(
    cache: Map<(AssetKey, usize), S>,
    spell: AssetKey,
    timings: Seq<RuneTiming>,
    registrations: Seq<Seq<(usize, S)>>,
)
    requires
        timings.len() <= usize::MAX + 1,
        registrations.len() > 0,
        forall|c: int| 0 <= c < registrations.len() ==> registers_missing(
            #[trigger] cache_after_casts(cache, spell, registrations.take(c)),
            spell,
            timings.len(),
            registrations[c],
        ),
    ensures
        registrations[0].len() == missing_indices(cache, spell, timings.len()).len(),
        forall|a: int, b: int| 0 <= a < b < registrations[0].len() ==> #[trigger] registrations[0][a].0
            < #[trigger] registrations[0][b].0,
        forall|c: int| 1 <= c < registrations.len() ==> #[trigger] registrations[c].len() == 0,
        forall|c: int| 1 <= c <= registrations.len() ==> #[trigger] cache_after_casts(cache, spell, registrations.take(c))
            == cache_after_casts(cache, spell, registrations.take(1)),
        forall|c: int| 1 <= c <= registrations.len() ==> #[trigger] cached_schedule(
            cache_after_casts(cache, spell, registrations.take(c)),
            spell,
            timings,
        ).len() == timings.len(),
        forall|c: int, i: int| 1 <= c <= registrations.len() && 0 <= i < timings.len() ==> #[trigger] cached_schedule(
            cache_after_casts(cache, spell, registrations.take(c)),
            spell,
            timings,
        )[i] == PendingRune::<S>::scheduled(
            cache_after_casts(cache, spell, registrations.take(1))[(spell, i as usize)],
            timings[i],
        ),
{
    let count = timings.len();
    let first = cache_after_casts(cache, spell, registrations.take(1));
    assert(registrations.take(0) =~= Seq::<Seq<(usize, S)>>::empty());
    assert(registers_missing(cache_after_casts(cache, spell, registrations.take(0)), spell, count, registrations[0]));
    lemma_missing_indices_ascending(cache, spell, count);
    assert forall|a: int, b: int| 0 <= a < b < registrations[0].len() implies #[trigger] registrations[0][a].0
        < #[trigger] registrations[0][b].0 by {
        assert(registrations[0][a].0 == missing_indices(cache, spell, count)[a]);
        assert(registrations[0][b].0 == missing_indices(cache, spell, count)[b]);
    }
    lemma_later_casts_change_nothing(cache, spell, count, registrations, 1);
    law_complete_cache_schedules_every_rune(first, spell, timings);
    assert forall|c: int| 1 <= c < registrations.len() implies #[trigger] registrations[c].len() == 0 by {
        lemma_later_casts_change_nothing(cache, spell, count, registrations, c);
        assert(registers_missing(cache_after_casts(cache, spell, registrations.take(c)), spell, count, registrations[c]));
        lemma_none_missing(first, spell, count);
    }
    assert forall|c: int| 1 <= c <= registrations.len() implies #[trigger] cache_after_casts(cache, spell, registrations.take(c))
        == first by {
        lemma_later_casts_change_nothing(cache, spell, count, registrations, c);
    }
    assert forall|c: int| 1 <= c <= registrations.len() implies #[trigger] cached_schedule(
        cache_after_casts(cache, spell, registrations.take(c)),
        spell,
        timings,
    ).len() == timings.len() by {
        lemma_later_casts_change_nothing(cache, spell, count, registrations, c);
    }
    assert forall|c: int, i: int| 1 <= c <= registrations.len() && 0 <= i < timings.len() implies #[trigger] cached_schedule(
        cache_after_casts(cache, spell, registrations.take(c)),
        spell,
        timings,
    )[i] == PendingRune::<S>::scheduled(first[(spell, i as usize)], timings[i]) by {
        lemma_later_casts_change_nothing(cache, spell, count, registrations, c);
    }
}

} // verus!
