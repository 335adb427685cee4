//! The spellbook: the ordered spells an entity can cast; a spell's index is its slot.

use vstd::prelude::*;
use vstd::std_specs::cmp::PartialEqSpec;

verus! {

/// The position of the first element of `s` equal (by `==` on `H`) to `h`, or -1.
pub open spec fn first_equal<H: PartialEq>(s: Seq<H>, h: H) -> int
    decreases s.len(),
{
    if s.len() == 0 {
        -1
    } else {
        let prev = first_equal(s.drop_last(), h);
        if prev >= 0 {
            prev
        } else if s.last().eq_spec(&h) {
            s.len() - 1
        } else {
            -1
        }
    }
}

/// `s` without its first element equal to `h`, if it has one.
pub open spec fn without_first_equal<H: PartialEq>(s: Seq<H>, h: H) -> Seq<H> {
    if first_equal(s, h) >= 0 {
        s.remove(first_equal(s, h))
    } else {
        s
    }
}

/// The first matching position is in range, holds an equal element, and no earlier
/// element is equal; with no matching position no element is equal.
pub proof fn lemma_first_equal<H: PartialEq>(s: Seq<H>, h: H)
    ensures
        -1 <= first_equal(s, h) < s.len(),
        first_equal(s, h) >= 0 ==> s[first_equal(s, h)].eq_spec(&h),
        forall|k: int| 0 <= k < s.len() && (first_equal(s, h) < 0 || k < first_equal(s, h)) ==> !#[trigger] s[k].eq_spec(&h),
    decreases s.len(),
{
    if s.len() > 0 {
        let prev = s.drop_last();
        lemma_first_equal(prev, h);
        assert forall|k: int| 0 <= k < prev.len() implies prev[k] == s[k] by {}
        assert(s.last() == s[s.len() - 1]);
    }
}

proof fn lemma_first_equal_prefix<H: PartialEq>(s: Seq<H>, h: H, k: int)
    requires
        0 <= k <= s.len(),
        first_equal(s.take(k), h) >= 0,
    ensures
        first_equal(s, h) == first_equal(s.take(k), h),
    decreases s.len() - k,
{
    if k < s.len() {
        assert(s.take(k + 1).drop_last() == s.take(k));
        lemma_first_equal_prefix(s, h, k + 1);
    } else {
        assert(s.take(k) == s);
    }
}

/// Every spell an entity can cast, as spell handles `H`.
pub struct Spellbook<H> {
    /// Ordered spell slots; the index acts as the slot number.
    pub spells: Vec<H>,
}

impl<H: PartialEq> Spellbook<H> {
    /// An empty spellbook.
    pub fn new() -> (b: Spellbook<H>)
        ensures
            b.spells@ == Seq::<H>::empty(),
    {
        Spellbook { spells: Vec::new() }
    }

    /// The same spellbook with `handle` in a new last slot.
    pub fn with_spell(self, handle: H) -> (b: Spellbook<H>)
        ensures
            b.spells@ == self.spells@.push(handle),
    {
        let mut b = self;
        b.spells.push(handle);
        b
    }

    /// Puts `handle` in the next free slot (after the others).
    pub fn add_spell(&mut self, handle: H)
        ensures
            final(self).spells@ == old(self).spells@.push(handle),
    {
        self.spells.push(handle);
    }

    /// Removes the first slot that holds `handle`, if there is one; the other slots keep
    /// their order.
    pub fn remove_spell(&mut self, handle: &H)
        ensures
            H::obeys_eq_spec() ==> final(self).spells@ == without_first_equal(old(self).spells@, *handle),
            final(self).spells@ == old(self).spells@ || exists|p: int|
                0 <= p < old(self).spells@.len() && final(self).spells@ == old(self).spells@.remove(p),
    {
        let n = self.spells.len();
        for i in 0..n
            invariant
                n == self.spells.len(),
                self.spells@ == old(self).spells@,
                H::obeys_eq_spec() ==> first_equal(self.spells@.take(i as int), *handle) == -1,
        {
            assert(self.spells@.take(i + 1).drop_last() == self.spells@.take(i as int));
            let equal = self.spells[i] == *handle;
            if equal {
                proof {
                    if H::obeys_eq_spec() {
                        lemma_first_equal_prefix(self.spells@, *handle, i as int + 1);
                    }
                }
                let ghost before = self.spells@;
                self.spells.remove(i);
                assert(self.spells@ == before.remove(i as int));
                return;
            }
        }
        assert(self.spells@.take(n as int) == self.spells@);
    }

    /// Whether some slot holds `handle`.
    pub fn contains(&self, handle: &H) -> (b: bool)
        ensures
            H::obeys_eq_spec() ==> b == exists|i: int| 0 <= i < self.spells@.len() && #[trigger] self.spells@[i].eq_spec(handle),
    {
        for i in 0..self.spells.len()
            invariant
                H::obeys_eq_spec() ==> forall|k: int| 0 <= k < i ==> !#[trigger] self.spells@[k].eq_spec(handle),
        {
            if self.spells[i] == *handle {
                return true;
            }
        }
        false
    }

    /// The number of slots.
    pub fn len(&self) -> (n: usize)
        ensures
            n == self.spells@.len(),
    {
        self.spells.len()
    }

    /// Whether the spellbook has no spell.
    pub fn is_empty(&self) -> (b: bool)
        ensures
            b == (self.spells@.len() == 0),
    {
        self.spells.len() == 0
    }
}

} // verus!

verus! {

/// Removing a spell takes out exactly one slot when some slot holds it: the first one. The
/// slots before it hold other spells and stay, and the slots after it move up by one; when
/// no slot holds it nothing changes.
pub proof fn law_remove_spell_takes_the_first_slot<H: PartialEq>(spells: Seq<H>, handle: H)
    ensures
        (exists|k: int| 0 <= k < spells.len() && #[trigger] spells[k].eq_spec(&handle)) ==> {
            let p = first_equal(spells, handle);
            &&& 0 <= p < spells.len()
            &&& spells[p].eq_spec(&handle)
            &&& without_first_equal(spells, handle).len() == spells.len() - 1
            &&& without_first_equal(spells, handle) == spells.take(p) + spells.skip(p + 1)
            &&& forall|k: int| 0 <= k < p ==> !#[trigger] spells[k].eq_spec(&handle)
        },
        !(exists|k: int| 0 <= k < spells.len() && #[trigger] spells[k].eq_spec(&handle)) ==> without_first_equal(
            spells,
            handle,
        ) == spells,
{
    lemma_first_equal(spells, handle);
    let p = first_equal(spells, handle);
    if p >= 0 {
        assert(spells.remove(p) =~= spells.take(p) + spells.skip(p + 1));
    }
}

/// A spell just added is found, for a handle type whose `==` holds between a handle and
/// itself.
pub proof fn law_added_spell_is_found<H: PartialEq>(spells: Seq<H>, handle: H)
    requires
        handle.eq_spec(&handle),
    ensures
        exists|i: int| 0 <= i < spells.push(handle).len() && #[trigger] spells.push(handle)[i].eq_spec(&handle),
{
    assert(spells.push(handle)[spells.len() as int] == handle);
}

} // verus!
