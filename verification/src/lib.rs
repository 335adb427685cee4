//! Spells, runes and enchantments: the scheduling, caching and spell-file rules of a
//! spellcasting system for the Bevy engine, with their contracts.

pub mod enchanting;
pub mod plugin;
pub mod registry;
pub mod ron_value;
pub mod runes;
pub mod spell;
pub mod spellbook;
pub mod timer;

pub use enchanting::{ActiveEnchantmentEntry, ActiveEnchantments, Enchantment, EnchantmentSource};
pub use plugin::RuneSystemCache;
pub use runes::{ActiveSpells, CastContext};
pub use spell::Spell;
pub use spellbook::Spellbook;
