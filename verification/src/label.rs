use std::fmt::Display;
use std::hash::Hash;
use vstd::laws_cmp::obeys_cmp;
use vstd::prelude::*;
use vstd::std_specs::hash::obeys_key_model;

verus! {

/// An atomic symbol on a transition.
///
/// Labels are compared, hashed, ordered and displayed; the order fixes the
/// sequence in which the edges that leave a state are walked. One value of
/// the type is set apart as the wildcard. The composition of automata never
/// looks at it: what a state does on labels it has no edge for is decided by
/// the state's membership in the looping set alone.
pub trait Label: Copy + Eq + Ord + Hash + Display {
    /// The wildcard of this label type.
    spec fn wild_value() -> Self;

    /// Returns the wildcard.
    fn wild() -> (w: Self)
        ensures
            w == Self::wild_value(),
    ;

    /// Whether this label is the wildcard.
    fn is_wild(&self) -> (b: bool)
        ensures
            b == (*self == Self::wild_value()),
    ;

    /// The order and the hashing of the type behave as those of a key must:
    /// the ordered and hashed collections of this library rely on it.
    proof fn lawful()
        ensures
            obeys_cmp::<Self>(),
            obeys_key_model::<Self>(),
    ;
}

impl Label for u32 {
    /// The wildcard among the numbers is 0.
    open spec fn wild_value() -> u32 {
        0
    }

    /// Returns 0.
    fn wild() -> (w: u32) {
        0
    }

    /// Whether the number is 0.
    fn is_wild(&self) -> (b: bool) {
        *self == 0
    }

    /// The numbers are ordered and hashed as keys must be.
    proof fn lawful() {
    }
}

} // verus!
