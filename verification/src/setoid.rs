use vstd::prelude::*;

verus! {

/// Something like a set whose members cannot be listed, so that it may have
/// infinitely many of them.
pub trait Setoid: Sized {
    type El: Eq;

    /// The members.
    spec fn members(&self) -> Set<Self::El>;

    /// A setoid without members.
    fn empty() -> (out: Self)
        ensures
            out.members() == Set::<Self::El>::empty(),
    ;

    /// Whether the setoid is known to have no member: a setoid of which this
    /// holds has none.
    fn is_empty(&self) -> (b: bool)
        ensures
            b ==> self.members() == Set::<Self::El>::empty(),
    ;

    /// What is a member of both.
    fn intersection(&self, other: &Self) -> (out: Self)
        ensures
            out.members() == self.members().intersect(other.members()),
    ;

    /// What is a member of one of the two.
    fn union(&self, other: &Self) -> (out: Self)
        ensures
            out.members() == self.members().union(other.members()),
    ;

    /// What is a member of this setoid and not of `other`.
    fn difference(&self, other: &Self) -> (out: Self)
        ensures
            out.members() == self.members().difference(other.members()),
    ;

    /// What is no member.
    fn complement(&self) -> (out: Self)
        ensures
            out.members() == self.members().complement(),
    ;

    /// Whether `el` is a member.
    fn member(&self, el: &Self::El) -> (b: bool)
        ensures
            b == self.members().contains(*el),
    ;
}

} // verus!
