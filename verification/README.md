# bevy_magic

A spellcasting system for the Bevy engine: spells made of runes, runes that run after a
delay and repeat on an interval, enchantments attached to entities, and spells loaded from
RON files.

- `src/` is the library, verified with Verus: rune timers and the per-caster and per-entity
  schedules (`timer`, `runes`, `enchanting`), the rune-system cache and the cast decisions
  (`plugin`), the rune registry (`registry`), RON values (`ron_value`), the spell file format
  (`spell`) and the spellbook (`spellbook`). Contracts are stated over `Seq`/`Map` views, and
  the laws that relate several operations are public proof functions named `law_*`.
- `app/` is the Bevy glue: components, messages, resources, the asset loader, the `Rune`
  trait and the systems that run the library's decisions against the ECS world.
- `tests/` drives the library through the casting and enchanting scenarios frame by frame.

The rune-system cache and the rune registry are kept in `Vec`s with a `Map` view (the cache,
keyed by spell and rune index) and a `Seq` view (the registry, whose lookups return a
registration's position) rather than in hash maps: vstd gives its `HashMap` specifications
only for key types that obey its key model, which it grants to integers and `bool`; a key
made of an `AssetKey` and an index, or a `String` name, could be given it only by an
assumption, so a hash map here would leave the cache's and the registry's contracts unproved.
The spellbook is generic over the handle type; its removal and membership contracts hold for
handle types whose `==` follows vstd's `PartialEq` specification.
