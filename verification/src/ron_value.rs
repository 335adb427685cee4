//! RON documents as plain values, and the lookups the spell format makes in them.

use ron::Value;
use vstd::prelude::*;

verus! {

/// A RON number, carried through unchanged (the spell format never reads one).
#[verifier::external_type_specification]
#[verifier::external_body]
pub struct ExRonNumber(ron::Number);

/// A value as the `ron` crate represents it.
#[verifier::external_type_specification]
#[verifier::external_body]
pub struct ExRonValue(ron::Value);

/// The error `ron` reports for a document it cannot parse, with its position.
#[verifier::external_type_specification]
#[verifier::external_body]
pub struct ExRonSpannedError(ron::error::SpannedError);

/// A RON value. A map keeps its entries in the order RON iterates them.
#[derive(Debug)]
pub enum RonValue {
    Bool(bool),
    Char(char),
    Mapping(Vec<(RonValue, RonValue)>),
    Number(ron::Number),
    Option(Option<Box<RonValue>>),
    String(String),
    Bytes(Vec<u8>),
    Sequence(Vec<RonValue>),
    Unit,
}

/// Whether `v` is the string `key`.
pub open spec fn is_key(v: RonValue, key: Seq<char>) -> bool {
    v matches RonValue::String(s) && s@ == key
}

/// The position of the first entry whose key is the string `key`, or -1.
pub open spec fn key_position(entries: Seq<(RonValue, RonValue)>, key: Seq<char>) -> int
    decreases entries.len(),
{
    if entries.len() == 0 {
        -1
    } else {
        let prev = key_position(entries.drop_last(), key);
        if prev >= 0 {
            prev
        } else if is_key(entries.last().0, key) {
            entries.len() - 1
        } else {
            -1
        }
    }
}

/// The position of the first entry of `entries` whose key is the string `key`.
pub fn find_key(entries: &Vec<(RonValue, RonValue)>, key: &String) -> (r: Option<usize>)
    ensures
        key_position(entries@, key@) < 0 ==> r is None,
        key_position(entries@, key@) >= 0 ==> r == Some(key_position(entries@, key@) as usize),
        key_position(entries@, key@) < entries@.len(),
{
    let n = entries.len();
    for i in 0..n
        invariant
            n == entries.len(),
            key_position(entries@.take(i as int), key@) == -1,
    {
        assert(entries@.take(i + 1).drop_last() == entries@.take(i as int));
        let hit = match &entries[i].0 {
            RonValue::String(s) => *s == *key,
            _ => false,
        };
        if hit {
            proof {
                lemma_key_position_prefix(entries@, key@, i as int + 1);
            }
            return Some(i);
        }
    }
    assert(entries@.take(n as int) == entries@);
    None
}

/// Once the first matching key lies in a prefix, the prefix and the whole sequence agree.
proof fn lemma_key_position_prefix(entries: Seq<(RonValue, RonValue)>, key: Seq<char>, k: int)
    requires
        0 <= k <= entries.len(),
        key_position(entries.take(k), key) >= 0,
    ensures
        key_position(entries, key) == key_position(entries.take(k), key),
    decreases entries.len() - k,
{
    if k < entries.len() {
        assert(entries.take(k + 1).drop_last() == entries.take(k));
        lemma_key_position_prefix(entries, key, k + 1);
    } else {
        assert(entries.take(k) == entries);
    }
}

/// What the RON parser makes of a document's bytes: the value, or `None` when it reports
/// an error.
pub uninterp spec fn ron_document(bytes: Seq<u8>) -> Option<RonValue>;

/// Parses RON with `ron::de::from_bytes::<ron::Value>` and turns the resulting
/// `ron::Value` into a `RonValue`, variant for variant (map entries in the map's iteration
/// order).
///
/// The contract says that the outcome depends on the bytes alone, through the name
/// `ron_document`; what the RON grammar accepts is not stated.
#[verifier::external_body]
pub(crate) fn parse_ron(bytes: &[u8]) -> (r: Result<RonValue, ron::error::SpannedError>)
    ensures
        r is Ok == ron_document(bytes@) is Some,
        r matches Ok(v) ==> ron_document(bytes@) == Some(v),
{
    ron::de::from_bytes::<ron::Value>(bytes).map(RonValue::from)
}

impl From<Value> for RonValue {
    /// Converts a `ron::Value` variant for variant.
    #[verifier::external_body]
    fn from(v: Value) -> RonValue {
        match v {
            Value::Bool(b) => RonValue::Bool(b),
            Value::Char(c) => RonValue::Char(c),
            Value::Map(m) => RonValue::Mapping(m.into_iter().map(|(k, x)| (RonValue::from(k), RonValue::from(x))).collect()),
            Value::Number(n) => RonValue::Number(n),
            Value::Option(o) => RonValue::Option(o.map(|b| Box::new(RonValue::from(*b)))),
            Value::String(s) => RonValue::String(s),
            Value::Bytes(b) => RonValue::Bytes(b),
            Value::Seq(s) => RonValue::Sequence(s.into_iter().map(RonValue::from).collect()),
            Value::Unit => RonValue::Unit,
        }
    }
}

} // verus!
