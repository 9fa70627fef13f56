use crate::label::Label;
use crate::setoid::Setoid;
use std::collections::HashSet;
use vstd::prelude::*;
use vstd::std_specs::iter::IteratorSpec;
use vstd::string::to_string_from_display_ensures;
use vstd::string::StringExecFns;

verus! {

/// A set of labels, given by its members or by what it lacks.
pub enum Labelset<T: Label> {
    /// Every label.
    All,
    /// No label.
    Empty,
    /// The labels of a finite set.
    Subset(HashSet<T>),
    /// Every label but those of a finite set.
    Compl(HashSet<T>),
}

/// A label set as a mathematical value: which of the four forms it has, and
/// the finite set that it is given by.
#[verifier::reject_recursive_types(T)]
pub enum LabelsetModel<T> {
    All,
    Empty,
    Subset(Set<T>),
    Compl(Set<T>),
}

impl<T> LabelsetModel<T> {
    /// The labels that are members.
    pub open spec fn members(self) -> Set<T> {
        match self {
            LabelsetModel::All => Set::full(),
            LabelsetModel::Empty => Set::empty(),
            LabelsetModel::Subset(s) => s,
            LabelsetModel::Compl(s) => s.complement(),
        }
    }

    /// The members of a finite set, or nothing at all if there are none.
    pub open spec fn reduced(s: Set<T>) -> Self {
        if s == Set::<T>::empty() {
            LabelsetModel::Empty
        } else {
            LabelsetModel::Subset(s)
        }
    }

    /// The form that the label set of what is a member of both takes. Only a
    /// difference that comes out empty is reduced to the form of no label.
    pub open spec fn intersection(self, other: Self) -> Self {
        match (self, other) {
            (LabelsetModel::All, _) => other,
            (LabelsetModel::Empty, _) => LabelsetModel::Empty,
            (LabelsetModel::Subset(s), LabelsetModel::All) => LabelsetModel::Subset(s),
            (LabelsetModel::Subset(_), LabelsetModel::Empty) => LabelsetModel::Empty,
            (LabelsetModel::Subset(s), LabelsetModel::Subset(o)) => LabelsetModel::Subset(
                s.intersect(o),
            ),
            (LabelsetModel::Subset(s), LabelsetModel::Compl(o)) => Self::reduced(s.difference(o)),
            (LabelsetModel::Compl(s), LabelsetModel::All) => LabelsetModel::Compl(s),
            (LabelsetModel::Compl(_), LabelsetModel::Empty) => LabelsetModel::Empty,
            (LabelsetModel::Compl(s), LabelsetModel::Subset(o)) => Self::reduced(o.difference(s)),
            (LabelsetModel::Compl(s), LabelsetModel::Compl(o)) => LabelsetModel::Compl(s.union(o)),
        }
    }

    /// The form that the label set of what is no member takes.
    pub open spec fn complement(self) -> Self {
        match self {
            LabelsetModel::All => LabelsetModel::Empty,
            LabelsetModel::Empty => LabelsetModel::All,
            LabelsetModel::Subset(s) => LabelsetModel::Compl(s),
            LabelsetModel::Compl(s) => LabelsetModel::Subset(s),
        }
    }

    /// The form that the label set of what is a member of one of the two
    /// takes.
    pub open spec fn union(self, other: Self) -> Self {
        match (self, other) {
            (LabelsetModel::All, _) => LabelsetModel::All,
            (LabelsetModel::Empty, _) => other,
            (LabelsetModel::Subset(_), LabelsetModel::All) => LabelsetModel::All,
            (LabelsetModel::Subset(s), LabelsetModel::Empty) => LabelsetModel::Subset(s),
            (LabelsetModel::Subset(s), LabelsetModel::Subset(o)) => LabelsetModel::Subset(
                s.union(o),
            ),
            (LabelsetModel::Subset(s), LabelsetModel::Compl(o)) => LabelsetModel::Compl(
                s,
            ).intersection(LabelsetModel::Subset(o)).complement(),
            (LabelsetModel::Compl(_), LabelsetModel::All) => LabelsetModel::All,
            (LabelsetModel::Compl(s), LabelsetModel::Empty) => LabelsetModel::Compl(s),
            (LabelsetModel::Compl(s), LabelsetModel::Subset(o)) => LabelsetModel::Compl(
                o,
            ).intersection(LabelsetModel::Subset(s)).complement(),
            (LabelsetModel::Compl(s), LabelsetModel::Compl(o)) => LabelsetModel::Subset(
                s,
            ).intersection(LabelsetModel::Subset(o)).complement(),
        }
    }

    /// The form that the label set of what is a member of the first and not
    /// of the second takes.
    pub open spec fn difference(self, other: Self) -> Self {
        self.intersection(other.complement())
    }

    /// The members of an intersection are the members of both.
    pub proof fn lemma_intersection(self, other: Self)
        ensures
            self.intersection(other).members() == self.members().intersect(other.members()),
    {
        assert(self.intersection(other).members() =~= self.members().intersect(other.members()));
    }

    /// The members of a complement are what is no member.
    pub proof fn lemma_complement(self)
        ensures
            self.complement().members() == self.members().complement(),
    {
        assert(self.complement().members() =~= self.members().complement());
    }

    /// The members of a union are the members of one of the two.
    pub proof fn lemma_union(self, other: Self)
        ensures
            self.union(other).members() == self.members().union(other.members()),
    {
        assert(self.union(other).members() =~= self.members().union(other.members()));
    }

    /// The members of a difference are the members of the first that are no
    /// members of the second.
    pub proof fn lemma_difference(self, other: Self)
        ensures
            self.difference(other).members() == self.members().difference(other.members()),
    {
        other.lemma_complement();
        self.lemma_intersection(other.complement());
        assert(self.difference(other).members() =~= self.members().difference(other.members()));
    }
}

/// The members of a set, each once.
fn items_of<T: Label>(set: &HashSet<T>) -> (list: Vec<T>)
    ensures
        list@.no_duplicates(),
        forall|x: T| set@.contains(x) <==> list@.contains(x),
{
    proof {
        T::lawful();
    }
    let mut list: Vec<T> = Vec::new();
    let ghost s: Seq<&T> = set.iter().remaining();
    for x in it: set.iter()
        invariant
            it.seq() == s,
            list@.len() == it.index(),
            forall|i: int| 0 <= i < list@.len() ==> list@[i] == *#[trigger] s[i],
    {
        list.push(*x);
    }
    proof {
        assert forall|x: T| set@.contains(x) implies list@.contains(x) by {
            assert(s.unref().to_set().contains(x));
            let i = choose|i: int| 0 <= i < s.unref().len() && s.unref()[i] == x;
            assert(list@[i] == x);
        }
        assert forall|x: T| list@.contains(x) implies set@.contains(x) by {
            let i = choose|i: int| 0 <= i < list@.len() && list@[i] == x;
            assert(s.unref()[i] == x);
            assert(s.unref().to_set().contains(s.unref()[i]));
        }
        assert forall|i: int, j: int|
            0 <= i < list@.len() && 0 <= j < list@.len() && i != j implies list@[i] != list@[j] by {
            assert(s[i] != s[j]);
        }
    }
    list
}

/// The members of `a` that are members of `b` if `keep`, and those that are
/// no members of `b` if not.
fn sifted<T: Label>(a: &HashSet<T>, b: &HashSet<T>, keep: bool) -> (out: HashSet<T>)
    ensures
        out@ == if keep {
            a@.intersect(b@)
        } else {
            a@.difference(b@)
        },
{
    proof {
        T::lawful();
    }
    let items = items_of(a);
    let mut out: HashSet<T> = HashSet::new();
    let mut i: usize = 0;
    while i < items.len()
        invariant
            i <= items.len(),
            forall|x: T| a@.contains(x) <==> items@.contains(x),
            forall|x: T|
                out@.contains(x) <==> (exists|k: int| 0 <= k < i && items@[k] == x) && (b@.contains(
                    x,
                ) == keep),
        decreases items.len() - i,
    {
        proof {
            T::lawful();
        }
        let ghost before = out@;
        if b.contains(&items[i]) == keep {
            out.insert(items[i]);
        }
        proof {
            assert forall|x: T|
                out@.contains(x) <==> (exists|k: int| 0 <= k < i + 1 && items@[k] == x) && (
                b@.contains(x) == keep) by {
                if exists|k: int| 0 <= k < i + 1 && items@[k] == x {
                    let k = choose|k: int| 0 <= k < i + 1 && items@[k] == x;
                    if k < i {
                        assert(0 <= k < i && items@[k] == x);
                    }
                }
                if before.contains(x) {
                    let k = choose|k: int| 0 <= k < i && items@[k] == x;
                    assert(0 <= k < i + 1 && items@[k] == x);
                }
                if x == items@[i as int] {
                    assert(0 <= i < i + 1 && items@[i as int] == x);
                }
            }
        }
        i += 1;
    }
    proof {
        assert forall|x: T| a@.contains(x) <==> exists|k: int| 0 <= k < i && items@[k] == x by {
            if a@.contains(x) {
                assert(items@.contains(x));
                let k = choose|k: int| 0 <= k < items@.len() && items@[k] == x;
                assert(0 <= k < i && items@[k] == x);
            }
            if exists|k: int| 0 <= k < i && items@[k] == x {
                let k = choose|k: int| 0 <= k < i && items@[k] == x;
                assert(items@.contains(items@[k]));
            }
        }
        if keep {
            assert(out@ =~= a@.intersect(b@));
        } else {
            assert(out@ =~= a@.difference(b@));
        }
    }
    out
}

/// The members of `a` and those of `b`.
fn joined<T: Label>(a: &HashSet<T>, b: &HashSet<T>) -> (out: HashSet<T>)
    ensures
        out@ == a@.union(b@),
{
    proof {
        T::lawful();
    }
    let nothing: HashSet<T> = HashSet::new();
    let mut out = sifted(a, &nothing, false);
    assert(out@ =~= a@);
    let items = items_of(b);
    let mut i: usize = 0;
    while i < items.len()
        invariant
            i <= items.len(),
            forall|x: T|
                out@.contains(x) <==> a@.contains(x) || exists|k: int| 0 <= k < i && items@[k] == x,
        decreases items.len() - i,
    {
        proof {
            T::lawful();
        }
        let ghost before = out@;
        out.insert(items[i]);
        proof {
            assert forall|x: T|
                out@.contains(x) <==> a@.contains(x) || exists|k: int|
                    0 <= k < i + 1 && items@[k] == x by {
                if exists|k: int| 0 <= k < i + 1 && items@[k] == x {
                    let k = choose|k: int| 0 <= k < i + 1 && items@[k] == x;
                    if k < i {
                        assert(0 <= k < i && items@[k] == x);
                    }
                }
                if exists|k: int| 0 <= k < i && items@[k] == x {
                    let k = choose|k: int| 0 <= k < i && items@[k] == x;
                    assert(0 <= k < i + 1 && items@[k] == x);
                }
                if x == items@[i as int] {
                    assert(0 <= i < i + 1 && items@[i as int] == x);
                }
            }
        }
        i += 1;
    }
    proof {
        assert forall|x: T| b@.contains(x) <==> exists|k: int| 0 <= k < i && items@[k] == x by {
            if b@.contains(x) {
                assert(items@.contains(x));
                let k = choose|k: int| 0 <= k < items@.len() && items@[k] == x;
                assert(0 <= k < i && items@[k] == x);
            }
            if exists|k: int| 0 <= k < i && items@[k] == x {
                let k = choose|k: int| 0 <= k < i && items@[k] == x;
                assert(items@.contains(items@[k]));
            }
        }
        assert(out@ =~= a@.union(b@));
    }
    out
}

/// A copy of a set.
fn copied<T: Label>(a: &HashSet<T>) -> (out: HashSet<T>)
    ensures
        out@ == a@,
{
    let nothing: HashSet<T> = HashSet::new();
    let out = sifted(a, &nothing, false);
    assert(out@ =~= a@);
    out
}

/// Whether `a` has every member of `b`.
fn includes<T: Label>(a: &HashSet<T>, b: &HashSet<T>) -> (all: bool)
    ensures
        all == b@.subset_of(a@),
{
    proof {
        T::lawful();
    }
    let items = items_of(b);
    let mut i: usize = 0;
    while i < items.len()
        invariant
            i <= items.len(),
            forall|x: T| b@.contains(x) <==> items@.contains(x),
            forall|k: int| 0 <= k < i ==> a@.contains(#[trigger] items@[k]),
        decreases items.len() - i,
    {
        proof {
            T::lawful();
        }
        if !a.contains(&items[i]) {
            assert(items@.contains(items@[i as int]));
            return false;
        }
        i += 1;
    }
    proof {
        assert forall|x: T| b@.contains(x) implies a@.contains(x) by {
            assert(items@.contains(x));
            let k = choose|k: int| 0 <= k < items@.len() && items@[k] == x;
            assert(a@.contains(items@[k]));
        }
    }
    true
}

/// Names in a row, a blank before each.
pub open spec fn listed(names: Seq<String>) -> Seq<char>
    decreases names.len(),
{
    if names.len() == 0 {
        Seq::empty()
    } else {
        listed(names.drop_last()) + seq![' '] + names.last()@
    }
}

/// Names in a row between braces.
pub open spec fn braced(names: Seq<String>) -> Seq<char> {
    seq!['{'] + listed(names) + seq![' ', '}']
}

/// Whether `items` holds the members of `set`, each once, and `names` holds
/// for each item a text that the type of the labels displays it as.
pub open spec fn names_members<T: Label>(set: Set<T>, items: Seq<T>, names: Seq<String>) -> bool {
    &&& items.no_duplicates()
    &&& forall|x: T| set.contains(x) <==> items.contains(x)
    &&& names.len() == items.len()
    &&& forall|k: int|
        0 <= k < items.len() ==> to_string_from_display_ensures::<T>(&items[k], #[trigger] names[k])
}

/// The members of a set between braces, in the order in which the set hands
/// them out, each displayed as its type displays it.
pub fn display_set<T: Label>(set: &HashSet<T>) -> (text: String)
    ensures
        exists|items: Seq<T>, names: Seq<String>|
            #[trigger] names_members(set@, items, names) && text@ == braced(names),
{
    let items = items_of(set);
    let mut text = String::new();
    proof {
        reveal_strlit("{");
        reveal_strlit(" ");
        reveal_strlit(" }");
    }
    text.append("{");
    let ghost mut names: Seq<String> = Seq::empty();
    let mut i: usize = 0;
    proof {
        assert(text@ =~= seq!['{'] + listed(names));
    }
    while i < items.len()
        invariant
            i <= items.len(),
            " "@ == seq![' '],
            names.len() == i,
            forall|k: int|
                0 <= k < i ==> to_string_from_display_ensures::<T>(&items@[k], #[trigger] names[k]),
            text@ == seq!['{'] + listed(names),
        decreases items.len() - i,
    {
        let ghost before = names;
        let name = items[i].to_string();
        text.append(" ");
        text.append(name.as_str());
        proof {
            names = names.push(name);
            assert(names.drop_last() =~= before);
            assert(text@ =~= seq!['{'] + listed(names));
        }
        i += 1;
    }
    text.append(" }");
    proof {
        assert(text@ =~= braced(names));
        assert(names_members(set@, items@, names));
    }
    text
}

impl<T: Label> Labelset<T> {
    /// The label set as text: a star for every label, a zero for no label,
    /// the members between braces for a finite set, and a tilde before the
    /// braces for all but a finite set.
    pub fn render(&self) -> (text: String)
        ensures
            self@ is All ==> text@ == seq!['*'],
            self@ is Empty ==> text@ == seq!['0'],
            self@ matches LabelsetModel::Subset(s) ==> exists|items: Seq<T>, names: Seq<String>|
                #[trigger] names_members(s, items, names) && text@ == braced(names),
            self@ matches LabelsetModel::Compl(s) ==> exists|items: Seq<T>, names: Seq<String>|
                #[trigger] names_members(s, items, names) && text@ == seq!['~'] + braced(names),
    {
        proof {
            reveal_strlit("*");
            reveal_strlit("0");
            reveal_strlit("~");
        }
        match self {
            Labelset::All => {
                let text = String::from_str("*");
                assert(text@ =~= seq!['*']);
                return text;
            },
            Labelset::Empty => {
                let text = String::from_str("0");
                assert(text@ =~= seq!['0']);
                return text;
            },
            Labelset::Subset(subs) => {
                let text = display_set(subs);
                assert(self@ matches LabelsetModel::Subset(s) ==> s == subs@);
                return text;
            },
            Labelset::Compl(subs) => {
                let inner = display_set(subs);
                let mut text = String::from_str("~");
                text.append(inner.as_str());
                proof {
                    let (items, names) = choose|items: Seq<T>, names: Seq<String>|
                        #[trigger] names_members(subs@, items, names) && inner@ == braced(names);
                    assert("~"@ =~= seq!['~']);
                    assert(names_members(subs@, items, names) && text@ =~= seq!['~'] + braced(names));
                    assert(self@ matches LabelsetModel::Compl(s) ==> s == subs@);
                }
                return text;
            },
        }
    }

    /// The label set as a mathematical value.
    pub open spec fn view(&self) -> LabelsetModel<T> {
        match self {
            Labelset::All => LabelsetModel::All,
            Labelset::Empty => LabelsetModel::Empty,
            Labelset::Subset(s) => LabelsetModel::Subset(s@),
            Labelset::Compl(s) => LabelsetModel::Compl(s@),
        }
    }

    /// Whether two label sets have the same form and are given by the same
    /// finite set. Two label sets with the same members can differ in this.
    pub fn same(&self, other: &Labelset<T>) -> (b: bool)
        ensures
            b == (self@ == other@),
    {
        match (self, other) {
            (Labelset::All, Labelset::All) => true,
            (Labelset::Empty, Labelset::Empty) => true,
            (Labelset::Subset(s), Labelset::Subset(s2)) => {
                let b = includes(s, s2) && includes(s2, s);
                assert(b == (s@ =~= s2@));
                b
            },
            (Labelset::Compl(s), Labelset::Compl(s2)) => {
                let b = includes(s, s2) && includes(s2, s);
                assert(b == (s@ =~= s2@));
                b
            },
            _ => false,
        }
    }
}

impl<T: Label> Clone for Labelset<T> {
    /// A copy of the label set.
    fn clone(&self) -> (out: Self)
        ensures
            out@ == self@,
    {
        match self {
            Labelset::All => Labelset::All,
            Labelset::Empty => Labelset::Empty,
            Labelset::Subset(s) => Labelset::Subset(copied(s)),
            Labelset::Compl(s) => Labelset::Compl(copied(s)),
        }
    }
}

impl<T: Label> Eq for Labelset<T> {}

impl<T: Label> PartialEq for Labelset<T> {
    /// Whether two label sets have the same form and are given by the same
    /// finite set: see [`Labelset::same`].
    fn eq(&self, other: &Labelset<T>) -> (b: bool) {
        self.same(other)
    }
}

impl<T: Label> vstd::std_specs::cmp::PartialEqSpecImpl for Labelset<T> {
    open spec fn obeys_eq_spec() -> bool {
        true
    }

    open spec fn eq_spec(&self, other: &Labelset<T>) -> bool {
        self@ == other@
    }
}

impl<T: Label> Setoid for Labelset<T> {
    type El = T;

    /// The labels that are members: see [`LabelsetModel::members`].
    open spec fn members(&self) -> Set<T> {
        self@.members()
    }

    /// The label set of no label.
    fn empty() -> (out: Self)
        ensures
            out@ == LabelsetModel::<T>::Empty,
    {
        Labelset::Empty
    }

    /// Whether the label set has the form of no label. A label set given by
    /// an empty finite set has no member either, and is not empty in this
    /// sense.
    fn is_empty(&self) -> (b: bool)
        ensures
            b == (self@ == LabelsetModel::<T>::Empty),
    {
        match self {
            Labelset::Empty => true,
            _ => false,
        }
    }

    /// The labels that are members of both: see
    /// [`LabelsetModel::intersection`] for the form of the outcome.
    fn intersection(&self, other: &Self) -> (out: Self)
        ensures
            out@ == self@.intersection(other@),
    {
        proof {
            self@.lemma_intersection(other@);
        }
        match self {
            Labelset::All => other.clone(),
            Labelset::Empty => Labelset::Empty,
            Labelset::Subset(subs) => {
                match other {
                    Labelset::All => Labelset::Subset(copied(subs)),
                    Labelset::Empty => Labelset::Empty,
                    Labelset::Subset(other_subs) => Labelset::Subset(sifted(subs, other_subs, true)),
                    Labelset::Compl(other_subs) => {
                        let diff = sifted(subs, other_subs, false);
                        if diff.is_empty() {
                            assert(diff@ =~= Set::empty());
                            Labelset::Empty
                        } else {
                            Labelset::Subset(diff)
                        }
                    },
                }
            },
            Labelset::Compl(subs) => {
                match other {
                    Labelset::All => Labelset::Compl(copied(subs)),
                    Labelset::Empty => Labelset::Empty,
                    Labelset::Subset(other_subs) => {
                        let diff = sifted(other_subs, subs, false);
                        if diff.is_empty() {
                            assert(diff@ =~= Set::empty());
                            Labelset::Empty
                        } else {
                            Labelset::Subset(diff)
                        }
                    },
                    Labelset::Compl(other_subs) => Labelset::Compl(joined(subs, other_subs)),
                }
            },
        }
    }

    /// The labels that are members of one of the two: see
    /// [`LabelsetModel::union`] for the form of the outcome.
    fn union(&self, other: &Self) -> (out: Self)
        ensures
            out@ == self@.union(other@),
    {
        proof {
            self@.lemma_union(other@);
        }
        match self {
            Labelset::All => Labelset::All,
            Labelset::Empty => other.clone(),
            Labelset::Subset(subs) => {
                match other {
                    Labelset::All => Labelset::All,
                    Labelset::Empty => self.clone(),
                    Labelset::Subset(s2) => Labelset::Subset(joined(subs, s2)),
                    Labelset::Compl(s2) => Labelset::Compl(copied(subs)).intersection(
                        &Labelset::Subset(copied(s2)),
                    ).complement(),
                }
            },
            Labelset::Compl(subs) => {
                match other {
                    Labelset::All => Labelset::All,
                    Labelset::Empty => Labelset::Compl(copied(subs)),
                    Labelset::Subset(s2) => Labelset::Compl(copied(s2)).intersection(
                        &Labelset::Subset(copied(subs)),
                    ).complement(),
                    Labelset::Compl(s2) => Labelset::Subset(copied(subs)).intersection(
                        &Labelset::Subset(copied(s2)),
                    ).complement(),
                }
            },
        }
    }

    /// The labels that are members of this set and not of `other`: see
    /// [`LabelsetModel::difference`] for the form of the outcome.
    fn difference(&self, other: &Self) -> (out: Self)
        ensures
            out@ == self@.difference(other@),
    {
        proof {
            self@.lemma_difference(other@);
        }
        self.intersection(&other.complement())
    }

    /// The labels that are no members: see [`LabelsetModel::complement`]
    /// for the form of the outcome.
    fn complement(&self) -> (out: Self)
        ensures
            out@ == self@.complement(),
    {
        proof {
            self@.lemma_complement();
        }
        match self {
            Labelset::All => Labelset::Empty,
            Labelset::Empty => Labelset::All,
            Labelset::Subset(subs) => Labelset::Compl(copied(subs)),
            Labelset::Compl(subs) => Labelset::Subset(copied(subs)),
        }
    }

    /// Whether `el` is a member.
    fn member(&self, el: &T) -> (b: bool) {
        proof {
            T::lawful();
        }
        match self {
            Labelset::All => true,
            Labelset::Empty => false,
            Labelset::Subset(subs) => subs.contains(el),
            Labelset::Compl(subs) => !subs.contains(el),
        }
    }
}

} // verus!
