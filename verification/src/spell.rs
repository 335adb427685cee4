//! Spells, and the spell file format: a RON map with a string `name`, a string
//! `description`, and a sequence of `runes`, each rune a map whose string `type` names a
//! registered rune type.

use vstd::prelude::*;

use crate::registry::{resolution, RuneDeserializeError, RuneRegistry};
use crate::ron_value::{find_key, key_position, parse_ron, ron_document, RonValue};
use vstd::string::StringExecFns;

verus! {

/// A spell: a name, a description, and runes executed in order each time it is cast.
/// `R` is the rune type.
pub struct Spell<R> {
    /// Human-readable name shown in UI.
    pub name: String,
    /// Flavour / tooltip text.
    pub description: String,
    /// Runes executed in order each time this spell is cast.
    pub runes: Vec<R>,
}

impl<R> Spell<R> {
    /// A spell with no rune.
    pub fn new(name: &str, description: &str) -> (s: Spell<R>)
        ensures
            s.name@ == name@,
            s.description@ == description@,
            s.runes@ == Seq::<R>::empty(),
    {
        Spell { name: name.to_owned(), description: description.to_owned(), runes: Vec::new() }
    }

    /// The same spell with `rune` appended to its runes.
    pub fn with_rune(self, rune: R) -> (s: Spell<R>)
        ensures
            s.name == self.name,
            s.description == self.description,
            s.runes@ == self.runes@.push(rune),
    {
        let mut s = self;
        s.runes.push(rune);
        s
    }
}

/// What is wrong with a spell document that parsed as RON.
#[derive(Clone, Copy, Debug, PartialEq, Eq, Structural)]
pub enum SpellFormatError {
    /// The document is not a map.
    NotAMap,
    /// No string `name` entry.
    MissingName,
    /// No string `description` entry.
    MissingDescription,
    /// No `runes` entry.
    MissingRunes,
    /// The `runes` entry is not a sequence.
    RunesNotASequence,
}

/// The message of each format error.
pub open spec fn format_message(e: SpellFormatError) -> Seq<char> {
    match e {
        SpellFormatError::NotAMap => "expected top-level RON map"@,
        SpellFormatError::MissingName => "missing or invalid 'name' field"@,
        SpellFormatError::MissingDescription => "missing or invalid 'description' field"@,
        SpellFormatError::MissingRunes => "missing 'runes' field"@,
        SpellFormatError::RunesNotASequence => "invalid 'runes' field (expected sequence)"@,
    }
}

impl SpellFormatError {
    /// The human-readable message of this error.
    pub fn message(&self) -> (m: String)
        ensures
            m@ == format_message(*self),
    {
        match self {
            SpellFormatError::NotAMap => String::from_str("expected top-level RON map"),
            SpellFormatError::MissingName => String::from_str("missing or invalid 'name' field"),
            SpellFormatError::MissingDescription => String::from_str("missing or invalid 'description' field"),
            SpellFormatError::MissingRunes => String::from_str("missing 'runes' field"),
            SpellFormatError::RunesNotASequence => String::from_str("invalid 'runes' field (expected sequence)"),
        }
    }
}

/// An error on the RON level: the parser's, or the spell format's.
#[derive(Debug)]
pub enum RonError {
    /// The bytes are not a RON document.
    Parse(ron::error::SpannedError),
    /// The document is not a spell.
    Format(SpellFormatError),
}

/// Why a spell file could not be read as a spell. (A rune that cannot be matched to its
/// type does not make the document unreadable: it ends the plan's runes, see `SpellPlan`.)
#[derive(Debug)]
pub enum SpellLoadError {
    /// The file is not a RON spell document.
    Ron(RonError),
}

/// A parsed spell document: its name and description, and its runes matched to their
/// registered types, in order, up to the first rune that could not be matched.
#[derive(Debug)]
pub struct SpellPlan {
    /// The spell's name.
    pub name: String,
    /// The spell's description.
    pub description: String,
    /// For each matched rune, its type's position in the registry and its fields.
    pub runes: Vec<(usize, RonValue)>,
    /// Why the rune after the matched ones could not be matched, if there is one.
    pub stopped: Option<RuneDeserializeError>,
}

/// The key of the spell's name.
pub open spec fn name_key() -> Seq<char> {
    seq!['n', 'a', 'm', 'e']
}

/// The key of the spell's description.
pub open spec fn description_key() -> Seq<char> {
    seq!['d', 'e', 's', 'c', 'r', 'i', 'p', 't', 'i', 'o', 'n']
}

/// The key of the spell's runes.
pub open spec fn runes_key() -> Seq<char> {
    seq!['r', 'u', 'n', 'e', 's']
}

/// The string under the first entry with key `key`, if that entry exists and holds a string.
pub open spec fn string_entry(entries: Seq<(RonValue, RonValue)>, key: Seq<char>) -> Option<Seq<char>> {
    let p = key_position(entries, key);
    if p >= 0 && entries[p].1 is String {
        Some(entries[p].1->String_0@)
    } else {
        None
    }
}

/// Whether `runes` and `stopped` are the matching of `items` against the registered `names`:
/// every rune matched in order, or the matched prefix followed by the first failure.
pub open spec fn runes_resolved(
    names: Seq<Seq<char>>,
    items: Seq<RonValue>,
    runes: Seq<(usize, RonValue)>,
    stopped: Option<RuneDeserializeError>,
) -> bool {
    &&& (forall|j: int| 0 <= j < runes.len() ==> resolution(names, items[j], Ok(#[trigger] runes[j])))
    &&& match stopped {
        None => runes.len() == items.len(),
        Some(e) => runes.len() < items.len() && resolution(names, items[runes.len() as int], Err(e)),
    }
}

/// Whether `r` is what the spell format makes of the RON value `value`, with the registered
/// rune type names `names`.
pub open spec fn spell_outcome(names: Seq<Seq<char>>, value: RonValue, r: Result<SpellPlan, SpellLoadError>) -> bool {
    match value {
        RonValue::Mapping(entries) => {
            let name = string_entry(entries@, name_key());
            let description = string_entry(entries@, description_key());
            let p = key_position(entries@, runes_key());
            if name is None {
                r matches Err(SpellLoadError::Ron(RonError::Format(SpellFormatError::MissingName)))
            } else if description is None {
                r matches Err(SpellLoadError::Ron(RonError::Format(SpellFormatError::MissingDescription)))
            } else if p < 0 {
                r matches Err(SpellLoadError::Ron(RonError::Format(SpellFormatError::MissingRunes)))
            } else {
                match entries@[p].1 {
                    RonValue::Sequence(items) => r matches Ok(plan) && plan.name@ == name->0
                        && plan.description@ == description->0 && runes_resolved(
                        names,
                        items@,
                        plan.runes@,
                        plan.stopped,
                    ),
                    _ => r matches Err(SpellLoadError::Ron(RonError::Format(SpellFormatError::RunesNotASequence))),
                }
            }
        },
        _ => r matches Err(SpellLoadError::Ron(RonError::Format(SpellFormatError::NotAMap))),
    }
}

/// The string under the first entry of `entries` with key `key`, if it holds a string.
fn get_string(entries: &Vec<(RonValue, RonValue)>, key: &String) -> (r: Option<String>)
    ensures
        r is Some == string_entry(entries@, key@) is Some,
        r matches Some(s) ==> s@ == string_entry(entries@, key@)->0,
{
    let len = entries.len();
    match find_key(entries, key) {
        Some(p) => match &entries[p].1 {
            RonValue::String(s) => Some(s.clone()),
            _ => None,
        },
        None => None,
    }
}

/// Reads a spell out of a RON value: checks the document's shape, and matches each rune to
/// its registered type, stopping at the first rune that does not match.
pub fn spell_plan_from_value(value: RonValue, registry: &RuneRegistry) -> (r: Result<SpellPlan, SpellLoadError>)
    ensures
        spell_outcome(registry@, value, r),
{
    let ghost input = value;
    match value {
        RonValue::Mapping(mut entries) => {
            assert(input == RonValue::Mapping(entries));
            let name_k = String::from_str("name");
            let description_k = String::from_str("description");
            let runes_k = String::from_str("runes");
            proof {
                reveal_strlit("name");
                reveal_strlit("description");
                reveal_strlit("runes");
                assert(name_k@ =~= name_key());
                assert(description_k@ =~= description_key());
                assert(runes_k@ =~= runes_key());
            }
            let name = match get_string(&entries, &name_k) {
                Some(s) => s,
                None => return Err(SpellLoadError::Ron(RonError::Format(SpellFormatError::MissingName))),
            };
            let description = match get_string(&entries, &description_k) {
                Some(s) => s,
                None => return Err(SpellLoadError::Ron(RonError::Format(SpellFormatError::MissingDescription))),
            };
            let len = entries.len();
            let p = match find_key(&entries, &runes_k) {
                Some(p) => p,
                None => return Err(SpellLoadError::Ron(RonError::Format(SpellFormatError::MissingRunes))),
            };
            let ghost before = entries@;
            let (_, runes_value) = entries.remove(p);
            assert(runes_value == before[p as int].1);
            match runes_value {
                RonValue::Sequence(mut items) => {
                    let ghost all = items@;
                    let mut runes: Vec<(usize, RonValue)> = Vec::new();
                    let mut stopped: Option<RuneDeserializeError> = None;
                    while items.len() > 0 && stopped.is_none()
                        invariant
                            stopped is None ==> runes@.len() + items@.len() == all.len(),
                            stopped is None ==> items@ == all.skip(runes@.len() as int),
                            forall|j: int| 0 <= j < runes@.len() ==> resolution(registry@, all[j], Ok(#[trigger] runes@[j])),
                            stopped matches Some(e) ==> runes@.len() < all.len() && resolution(
                                registry@,
                                all[runes@.len() as int],
                                Err(e),
                            ),
                        decreases items@.len(),
                    {
                        let ghost k = runes@.len() as int;
                        let item = items.remove(0);
                        assert(item == all[k]);
                        match registry.deserialize_rune(item) {
                            Ok(x) => {
                                runes.push(x);
                                assert(items@ =~= all.skip(runes@.len() as int));
                            },
                            Err(e) => {
                                stopped = Some(e);
                            },
                        }
                    }
                    Ok(SpellPlan { name, description, runes, stopped })
                },
                _ => Err(SpellLoadError::Ron(RonError::Format(SpellFormatError::RunesNotASequence))),
            }
        },
        _ => Err(SpellLoadError::Ron(RonError::Format(SpellFormatError::NotAMap))),
    }
}

/// Reads a spell out of the bytes of a `.spell` file: parses them as RON, then reads the
/// spell out of the value.
pub fn spell_from_ron(bytes: &[u8], registry: &RuneRegistry) -> (r: Result<SpellPlan, SpellLoadError>)
    ensures
        ron_document(bytes@) is None ==> r matches Err(SpellLoadError::Ron(RonError::Parse(_))),
        ron_document(bytes@) matches Some(v) ==> spell_outcome(registry@, v, r),
{
    match parse_ron(bytes) {
        Ok(value) => spell_plan_from_value(value, registry),
        Err(e) => Err(SpellLoadError::Ron(RonError::Parse(e))),
    }
}


/// A rune value cannot both match a registered type and fail to.
proof fn lemma_resolution_is_one_kind(
    names: Seq<Seq<char>>,
    value: RonValue,
    x: (usize, RonValue),
    e: RuneDeserializeError,
)
    ensures
        !(resolution(names, value, Ok(x)) && resolution(names, value, Err(e))),
{
}

/// A spell's runes are read in order up to the first rune that does not match a registered
/// type. The plan reports no failure only when every rune of the file matched, each giving the
/// plan's rune at its position; when any rune of the file fails to match, the plan reports a
/// failure, and it is the failure of the rune just after the matched ones; when every rune of
/// the file matches, the plan reports none.
pub proof fn law_spell_fails_on_any_unmatched_rune(
    names: Seq<Seq<char>>,
    items: Seq<RonValue>,
    runes: Seq<(usize, RonValue)>,
    stopped: Option<RuneDeserializeError>,
)
    requires
        runes_resolved(names, items, runes, stopped),
    ensures
        stopped is None ==> runes.len() == items.len() && forall|j: int| 0 <= j < items.len() ==> resolution(
            names,
            items[j],
            Ok(#[trigger] runes[j]),
        ),
        (exists|i: int, e: RuneDeserializeError| 0 <= i < items.len() && #[trigger] resolution(names, items[i], Err(e)))
            ==> stopped is Some,
        (forall|i: int| #![trigger items[i]] 0 <= i < items.len() ==> exists|x: (usize, RonValue)| #[trigger] resolution(names, items[i], Ok(x)))
            ==> stopped is None,
        stopped matches Some(e) ==> runes.len() < items.len() && resolution(names, items[runes.len() as int], Err(e)),
{
    if exists|i: int, e: RuneDeserializeError| 0 <= i < items.len() && #[trigger] resolution(names, items[i], Err(e)) {
        let (i, e) = choose|i: int, e: RuneDeserializeError| 0 <= i < items.len() && #[trigger] resolution(names, items[i], Err(e));
        if stopped is None {
            lemma_resolution_is_one_kind(names, items[i], runes[i], e);
        }
    }
    if forall|i: int| #![trigger items[i]] 0 <= i < items.len() ==> exists|x: (usize, RonValue)| #[trigger] resolution(names, items[i], Ok(x)) {
        if let Some(e) = stopped {
            let k = runes.len() as int;
            let x = choose|x: (usize, RonValue)| #[trigger] resolution(names, items[k], Ok(x));
            lemma_resolution_is_one_kind(names, items[k], x, e);
        }
    }
}

} // verus!
