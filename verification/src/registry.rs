//! The rune registry: the names under which rune types are known to the spell format, and
//! the resolution of a rune's RON value to its registered type.

use vstd::prelude::*;
use vstd::std_specs::iter::IteratorSpec;

use crate::ron_value::{find_key, key_position, RonValue};
use vstd::string::StringExecFns;

verus! {

/// The name under which a rune type is registered, from its short type name: a trailing
/// `Rune` is dropped and the rest is lowercased (`DamageRune` becomes `damage`).
pub open spec fn registry_name_of(short_type_path: Seq<char>) -> Seq<char> {
    lowercase_of(strip_rune_suffix(short_type_path))
}

/// The type name without a trailing `Rune`, if it has one.
pub open spec fn strip_rune_suffix(s: Seq<char>) -> Seq<char> {
    if s.len() >= 4 && s.subrange(s.len() - 4, s.len() as int) == seq!['R', 'u', 'n', 'e'] {
        s.subrange(0, s.len() - 4)
    } else {
        s
    }
}

/// What `str::to_lowercase` makes of a string (Unicode lowercase mapping).
pub uninterp spec fn lowercase_of(s: Seq<char>) -> Seq<char>;

/// Calls `str::to_lowercase`, which returns the lowercase equivalent of the string as a new
/// `String`; the contract names the result, a function of the characters alone.
#[verifier::external_body]
fn str_to_lowercase(s: &str) -> (r: String)
    ensures
        r@ == lowercase_of(s@),
{
    s.to_lowercase()
}

/// Collects characters into a `String` with `String`'s `FromIterator<char>`, which keeps
/// them in order.
#[verifier::external_body]
fn string_from_chars(chars: &Vec<char>) -> (r: String)
    ensures
        r@ == chars@,
{
    chars.iter().collect()
}

/// The name under which a rune type is registered, from its short type name.
pub fn registry_name(short_type_path: &str) -> (name: String)
    ensures
        name@ == registry_name_of(short_type_path@),
{
    let chars = chars_of(short_type_path);
    let n = chars.len();
    let mut kept: Vec<char> = Vec::new();
    let strip = n >= 4 && chars[n - 4] == 'R' && chars[n - 3] == 'u' && chars[n - 2] == 'n' && chars[n - 1] == 'e';
    let keep = if strip {
        n - 4
    } else {
        n
    };
    for i in 0..keep
        invariant
            keep <= n,
            n == chars.len(),
            kept@ == chars@.take(i as int),
    {
        kept.push(chars[i]);
        assert(chars@.take(i + 1) == chars@.take(i as int).push(chars@[i as int]));
    }
    proof {
        let s = short_type_path@;
        if strip {
            assert(s.subrange(s.len() - 4, s.len() as int) =~= seq!['R', 'u', 'n', 'e']);
            assert(kept@ =~= s.subrange(0, s.len() - 4));
        } else {
            if s.len() >= 4 && s.subrange(s.len() - 4, s.len() as int) == seq!['R', 'u', 'n', 'e'] {
                assert(s.subrange(s.len() - 4, s.len() as int)[0] == s[s.len() - 4]);
                assert(s.subrange(s.len() - 4, s.len() as int)[1] == s[s.len() - 3]);
                assert(s.subrange(s.len() - 4, s.len() as int)[2] == s[s.len() - 2]);
                assert(s.subrange(s.len() - 4, s.len() as int)[3] == s[s.len() - 1]);
            }
            assert(kept@ =~= s);
        }
    }
    let stripped = string_from_chars(&kept);
    str_to_lowercase(stripped.as_str())
}

/// The characters of `s`, in order.
pub fn chars_of(s: &str) -> (r: Vec<char>)
    ensures
        r@ == s@,
{
    broadcast use vstd::string::group_string_axioms;

    let mut chars: Vec<char> = Vec::new();
    let mut it = s.chars();
    assert(it.remaining() == s@);
    loop
        invariant
            chars@ + it.remaining() == s@,
            it.decrease() is Some,
        decreases it.decrease()->0,
    {
        let ghost before = it.remaining();
        match it.next() {
            Some(c) => {
                assert(before == seq![c] + it.remaining());
                chars.push(c);
                assert(chars@ + it.remaining() =~= s@);
            },
            None => {
                assert(chars@ =~= s@);
                return chars;
            },
        }
    }
}


/// The position of the first name equal to `name`, or -1.
pub open spec fn name_position(names: Seq<Seq<char>>, name: Seq<char>) -> int
    decreases names.len(),
{
    if names.len() == 0 {
        -1
    } else {
        let prev = name_position(names.drop_last(), name);
        if prev >= 0 {
            prev
        } else if names.last() == name {
            names.len() - 1
        } else {
            -1
        }
    }
}

proof fn lemma_name_position_prefix(names: Seq<Seq<char>>, name: Seq<char>, k: int)
    requires
        0 <= k <= names.len(),
        name_position(names.take(k), name) >= 0,
    ensures
        name_position(names, name) == name_position(names.take(k), name),
    decreases names.len() - k,
{
    if k < names.len() {
        assert(names.take(k + 1).drop_last() == names.take(k));
        lemma_name_position_prefix(names, name, k + 1);
    } else {
        assert(names.take(k) == names);
    }
}

proof fn lemma_name_position_bounds(names: Seq<Seq<char>>, name: Seq<char>)
    ensures
        -1 <= name_position(names, name) < names.len(),
        name_position(names, name) >= 0 ==> names[name_position(names, name)] == name,
        name_position(names, name) < 0 ==> forall|i: int| 0 <= i < names.len() ==> names[i] != name,
    decreases names.len(),
{
    if names.len() > 0 {
        lemma_name_position_bounds(names.drop_last(), name);
        if name_position(names.drop_last(), name) >= 0 {
            assert(names.drop_last()[name_position(names.drop_last(), name)] == names[name_position(names.drop_last(), name)]);
        }
        assert forall|i: int| 0 <= i < names.len() - 1 implies names.drop_last()[i] == names[i] by {}
    }
}

/// The registered names after registering `name`: unchanged if it was there, else with it
/// at the end.
pub open spec fn registered(names: Seq<Seq<char>>, name: Seq<char>) -> Seq<Seq<char>> {
    if name_position(names, name) >= 0 {
        names
    } else {
        names.push(name)
    }
}

/// The position `register_name` returns for `name`.
pub open spec fn registered_position(names: Seq<Seq<char>>, name: Seq<char>) -> int {
    if name_position(names, name) >= 0 {
        name_position(names, name)
    } else {
        names.len() as int
    }
}

/// Looking a name up after registering it finds the position the registration returned,
/// and a rune map whose `type` is that name resolves to that position; names registered
/// before keep their positions.
pub proof fn law_lookup_after_register(names: Seq<Seq<char>>, name: Seq<char>, other: Seq<char>)
    ensures
        name_position(registered(names, name), name) == registered_position(names, name),
        name_position(names, other) >= 0 ==> name_position(registered(names, name), other) == name_position(names, other),
{
    lemma_name_position_bounds(names, name);
    if name_position(names, name) < 0 {
        let pushed = names.push(name);
        assert(pushed.drop_last() == names);
        if name_position(names, other) >= 0 {
            assert(pushed.take(names.len() as int) == names);
            lemma_name_position_prefix(pushed, other, names.len() as int);
        }
    }
}

/// Why a rune's RON value could not be matched to a registered rune type.
#[derive(Debug)]
pub enum RuneDeserializeError {
    /// The value is not a map with a string `type` entry; holds the value (without its
    /// `type` entry, when it had one that is not a string).
    MissingType(RonValue),
    /// No rune type is registered under this name.
    UnknownType(String),
}

/// The key that names a rune's type in its RON map.
pub open spec fn type_key() -> Seq<char> {
    seq!['t', 'y', 'p', 'e']
}

/// Whether `r` is what resolving `value` against the registered `names` gives: the map's
/// first `type` entry must be a string naming a registered type; the result is that type's
/// position and the map without its `type` entry.
pub open spec fn resolution(names: Seq<Seq<char>>, value: RonValue, r: Result<(usize, RonValue), RuneDeserializeError>) -> bool {
    match value {
        RonValue::Mapping(entries) => {
            let p = key_position(entries@, type_key());
            if p < 0 {
                r == Err::<(usize, RonValue), RuneDeserializeError>(RuneDeserializeError::MissingType(value))
            } else {
                match entries@[p].1 {
                    RonValue::String(t) => {
                        let i = name_position(names, t@);
                        if i >= 0 {
                            r matches Ok((j, RonValue::Mapping(rest))) && j == i && rest@ == entries@.remove(p)
                        } else {
                            r matches Err(RuneDeserializeError::UnknownType(n)) && n@ == t@
                        }
                    },
                    _ => r matches Err(RuneDeserializeError::MissingType(RonValue::Mapping(rest))) && rest@
                        == entries@.remove(p),
                }
            }
        },
        _ => r == Err::<(usize, RonValue), RuneDeserializeError>(RuneDeserializeError::MissingType(value)),
    }
}

/// The names of the registered rune types; a rune type is identified by its position.
pub struct RuneRegistry {
    /// Registered names, each at most once, in registration order.
    pub names: Vec<String>,
}

impl View for RuneRegistry {
    type V = Seq<Seq<char>>;

    open spec fn view(&self) -> Seq<Seq<char>> {
        self.names@.map_values(|s: String| s@)
    }
}

impl RuneRegistry {
    /// A registry with no rune type.
    pub fn new() -> (r: RuneRegistry)
        ensures
            r@ == Seq::<Seq<char>>::empty(),
    {
        let r = RuneRegistry { names: Vec::new() };
        assert(r@ =~= Seq::<Seq<char>>::empty());
        r
    }

    /// The position of the rune type registered under `name`, if any.
    pub fn lookup(&self, name: &String) -> (r: Option<usize>)
        ensures
            name_position(self@, name@) < 0 ==> r is None,
            name_position(self@, name@) >= 0 ==> r == Some(name_position(self@, name@) as usize),
    {
        let n = self.names.len();
        proof {
            lemma_name_position_bounds(self@, name@);
        }
        for i in 0..n
            invariant
                n == self.names.len(),
                n == self@.len(),
                name_position(self@.take(i as int), name@) == -1,
        {
            assert(self@.take(i + 1).drop_last() == self@.take(i as int));
            assert(self@[i as int] == self.names@[i as int]@);
            if self.names[i] == *name {
                proof {
                    lemma_name_position_prefix(self@, name@, i as int + 1);
                }
                return Some(i);
            }
        }
        assert(self@.take(n as int) == self@);
        None
    }

    /// Registers `name`, or finds it when it is already registered (a later registration
    /// under the same name then replaces the earlier deserializer at that position).
    pub fn register_name(&mut self, name: String) -> (i: usize)
        ensures
            name_position(old(self)@, name@) >= 0 ==> final(self)@ == old(self)@ && i == name_position(
                old(self)@,
                name@,
            ),
            name_position(old(self)@, name@) < 0 ==> final(self)@ == old(self)@.push(name@) && i == old(
                self,
            )@.len(),
            final(self)@[i as int] == name@,
    {
        let count = self.names.len();
        proof {
            lemma_name_position_bounds(self@, name@);
            assert(self@.len() == count);
        }
        match self.lookup(&name) {
            Some(i) => {
                assert(name_position(self@, name@) >= 0);
                assert(i as int == name_position(self@, name@));
                assert(self@ == old(self)@);
                i
            },
            None => {
                let i = self.names.len();
                let ghost name_view = name@;
                self.names.push(name);
                assert(self@ =~= old(self)@.push(name_view));
                i
            },
        }
    }

    /// Registers a rune type by its short type name, under `registry_name(short_type_path)`.
    pub fn register(&mut self, short_type_path: &str) -> (i: usize)
        ensures
            name_position(old(self)@, registry_name_of(short_type_path@)) >= 0 ==> final(self)@ == old(self)@ && i
                == name_position(old(self)@, registry_name_of(short_type_path@)),
            name_position(old(self)@, registry_name_of(short_type_path@)) < 0 ==> final(self)@ == old(self)@.push(
                registry_name_of(short_type_path@),
            ) && i == old(self)@.len(),
            final(self)@[i as int] == registry_name_of(short_type_path@),
    {
        let name = registry_name(short_type_path);
        self.register_name(name)
    }

    /// Matches a rune's RON value to its registered type: takes out the `type` entry and
    /// returns the type's position with the rest of the map, for that type's deserializer.
    pub fn deserialize_rune(&self, value: RonValue) -> (r: Result<(usize, RonValue), RuneDeserializeError>)
        ensures
            resolution(self@, value, r),
    {
        let ghost input = value;
        match value {
            RonValue::Mapping(mut entries) => {
                assert(input == RonValue::Mapping(entries));
                let key = String::from_str("type");
                proof {
                    reveal_strlit("type");
                    assert(key@ =~= type_key());
                }
                let len = entries.len();
                let found = find_key(&entries, &key);
                assert(key@ == type_key());
                assert(found is Some ==> key_position(entries@, type_key()) >= 0);
                match found {
                    None => Err(RuneDeserializeError::MissingType(RonValue::Mapping(entries))),
                    Some(p) => {
                        let ghost before = entries@;
                        assert(p as int == key_position(before, type_key()));
                        let (_, type_value) = entries.remove(p);
                        assert(type_value == before[p as int].1);
                        assert(entries@ == before.remove(p as int));
                        match type_value {
                            RonValue::String(t) => match self.lookup(&t) {
                                Some(i) => {
                                    proof {
                                        lemma_name_position_bounds(self@, t@);
                                        assert(self@.len() == self.names.len());
                                    }
                                    let r = Ok((i, RonValue::Mapping(entries)));
                                    assert(resolution(self@, input, r));
                                    r
                                },
                                None => Err(RuneDeserializeError::UnknownType(t)),
                            },
                            _ => Err(RuneDeserializeError::MissingType(RonValue::Mapping(entries))),
                        }
                    },
                }
            },
            other => Err(RuneDeserializeError::MissingType(other)),
        }
    }
}

} // verus!
