use crate::subsets::chosen;
use crate::subsets::lemma_chosen_in_range;
use crate::subsets::picked_by;
use crate::subsets::subsets;
use vstd::arithmetic::power2::pow2;
use vstd::laws_eq::obeys_concrete_eq;
use vstd::prelude::*;

verus! {

/// What the lists of this module ask of their items: `==` tells whether two
/// items are the same, and a clone of an item is the same as the item.
pub open spec fn faithful<T: Clone + Eq>() -> bool {
    &&& obeys_concrete_eq::<T>()
    &&& forall|a: T, b: T| #[trigger] cloned(a, b) ==> a == b
}

/// The sublist of `v` that `mask` chooses.
pub open spec fn pick<T>(v: Seq<T>, mask: usize) -> Seq<T> {
    Seq::new(chosen(mask, v.len()).len(), |k: int| v[chosen(mask, v.len())[k]])
}

/// The sublists of `v`: what is left of `v` when some of its items are
/// taken out.
pub open spec fn sublists<T>(v: Seq<T>) -> Set<Seq<T>> {
    Set::new(|s: Seq<T>| exists|mask: usize| mask < pow2(v.len()) && s == pick(v, mask))
}

/// The lists that a list of lists holds, as a set.
pub open spec fn as_set<T>(lists: Seq<Vec<T>>) -> Set<Seq<T>> {
    Set::new(|s: Seq<T>| exists|k: int| 0 <= k < lists.len() && (#[trigger] lists[k])@ == s)
}

/// The lists of `vecs` all of whose sublists are in `vecs` too.
pub open spec fn closed_members<T>(vecs: Set<Seq<T>>) -> Set<Seq<T>> {
    Set::new(|v: Seq<T>| vecs.contains(v) && sublists(v).subset_of(vecs))
}

/// The lists of `vecs` that are a sublist of no other list of `vecs`.
pub open spec fn largest_members<T>(vecs: Set<Seq<T>>) -> Set<Seq<T>> {
    Set::new(
        |v: Seq<T>|
            vecs.contains(v) && forall|o: Seq<T>|
                vecs.contains(o) && o != v ==> !#[trigger] sublists(o).contains(v),
    )
}

/// Whether no list occurs twice.
pub open spec fn distinct<T>(lists: Seq<Vec<T>>) -> bool {
    forall|a: int, b: int| 0 <= a < b < lists.len() ==> lists[a]@ != lists[b]@
}

/// Whether two lists hold the same items in the same order.
pub fn same_items<T: Clone + Eq>(a: &Vec<T>, b: &Vec<T>) -> (same: bool)
    requires
        faithful::<T>(),
    ensures
        same == (a@ == b@),
{
    proof {
        reveal(obeys_concrete_eq);
    }
    if a.len() != b.len() {
        return false;
    }
    let mut i: usize = 0;
    while i < a.len()
        invariant
            i <= a.len(),
            a.len() == b.len(),
            faithful::<T>(),
            forall|k: int| 0 <= k < i ==> a@[k] == b@[k],
        decreases a.len() - i,
    {
        proof {
            reveal(obeys_concrete_eq);
        }
        if a[i] != b[i] {
            return false;
        }
        i += 1;
    }
    assert(a@ =~= b@);
    true
}

/// Whether `lists` holds `v`.
pub fn holds<T: Clone + Eq>(lists: &Vec<Vec<T>>, v: &Vec<T>) -> (found: bool)
    requires
        faithful::<T>(),
    ensures
        found == as_set(lists@).contains(v@),
{
    let mut i: usize = 0;
    while i < lists.len()
        invariant
            i <= lists.len(),
            faithful::<T>(),
            forall|k: int| 0 <= k < i ==> (#[trigger] lists@[k])@ != v@,
        decreases lists.len() - i,
    {
        if same_items(&lists[i], v) {
            return true;
        }
        i += 1;
    }
    false
}

/// A copy of a list.
pub fn copy_of<T: Clone + Eq>(v: &Vec<T>) -> (copy: Vec<T>)
    requires
        faithful::<T>(),
    ensures
        copy@ == v@,
{
    let copy = v.clone();
    assert(copy@ =~= v@);
    copy
}

/// The sublists of `v`, each as often as a mask chooses it.
pub fn sublists_of<T: Clone + Eq>(v: &Vec<T>) -> (subs: Vec<Vec<T>>)
    requires
        faithful::<T>(),
        v.len() < 32,
    ensures
        as_set(subs@) == sublists(v@),
{
    let subs = subsets(v);
    proof {
        assert forall|i: int| 0 <= i < subs.len() implies (#[trigger] subs@[i])@ == pick(
            v@,
            i as usize,
        ) by {
            let mask = i as usize;
            lemma_chosen_in_range(mask, v@.len());
            assert(picked_by(subs@[i]@, v@, mask));
            assert forall|k: int| 0 <= k < subs@[i]@.len() implies subs@[i]@[k] == pick(v@, mask)[k] by {
                assert(cloned(v@[chosen(mask, v@.len())[k]], subs@[i]@[k]));
            }
            assert(subs@[i]@ =~= pick(v@, mask));
        }
        assert forall|s: Seq<T>| as_set(subs@).contains(s) <==> sublists(v@).contains(s) by {
            if as_set(subs@).contains(s) {
                let k = choose|k: int| 0 <= k < subs@.len() && (#[trigger] subs@[k])@ == s;
                assert((k as usize) < pow2(v@.len()) && s == pick(v@, k as usize));
            }
            if sublists(v@).contains(s) {
                let mask = choose|mask: usize| mask < pow2(v@.len()) && s == pick(v@, mask);
                assert(subs@[mask as int]@ == s);
            }
        }
        assert(as_set(subs@) =~= sublists(v@));
    }
    subs
}

/// Whether every list of `part` is in `whole`.
fn all_held<T: Clone + Eq>(part: &Vec<Vec<T>>, whole: &Vec<Vec<T>>) -> (all: bool)
    requires
        faithful::<T>(),
    ensures
        all == as_set(part@).subset_of(as_set(whole@)),
{
    let mut i: usize = 0;
    while i < part.len()
        invariant
            i <= part.len(),
            faithful::<T>(),
            forall|k: int| 0 <= k < i ==> as_set(whole@).contains((#[trigger] part@[k])@),
        decreases part.len() - i,
    {
        if !holds(whole, &part[i]) {
            assert(as_set(part@).contains(part@[i as int]@));
            return false;
        }
        i += 1;
    }
    true
}

/// The lists of `vecs` all of whose sublists are in `vecs` too, each once.
pub fn all_substrings_present<T: Clone + Eq>(vecs: &Vec<Vec<T>>) -> (result: Vec<Vec<T>>)
    requires
        faithful::<T>(),
        forall|k: int| 0 <= k < vecs.len() ==> (#[trigger] vecs@[k]).len() < 32,
    ensures
        as_set(result@) == closed_members(as_set(vecs@)),
        distinct(result@),
{
    let mut result: Vec<Vec<T>> = Vec::new();
    let mut i: usize = 0;
    while i < vecs.len()
        invariant
            i <= vecs.len(),
            faithful::<T>(),
            forall|k: int| 0 <= k < vecs.len() ==> (#[trigger] vecs@[k]).len() < 32,
            distinct(result@),
            forall|s: Seq<T>|
                #![trigger as_set(result@).contains(s)]
                as_set(result@).contains(s) <==> closed_members(as_set(vecs@)).contains(s)
                    && as_set(vecs@.subrange(0, i as int)).contains(s),
        decreases vecs.len() - i,
    {
        let ghost before = result@;
        let vec = &vecs[i];
        let subs = sublists_of(vec);
        let found_all = all_held(&subs, vecs);
        let fresh = !holds(&result, vec);
        if found_all && fresh {
            result.push(copy_of(vec));
        }
        proof {
            let part = vecs@.subrange(0, i as int);
            let more = vecs@.subrange(0, i + 1);
            assert(as_set(vecs@).contains(vecs@[i as int]@));
            assert(more[i as int] == vecs@[i as int]);
            assert forall|s: Seq<T>| as_set(more).contains(s) <==> as_set(part).contains(s) || s
                == vec@ by {
                if as_set(more).contains(s) {
                    let k = choose|k: int| 0 <= k < more.len() && (#[trigger] more[k])@ == s;
                    if k < i {
                        assert(part[k]@ == s);
                    }
                }
                if as_set(part).contains(s) {
                    let k = choose|k: int| 0 <= k < part.len() && (#[trigger] part[k])@ == s;
                    assert(more[k]@ == s);
                }
            }
            assert forall|s: Seq<T>| as_set(result@).contains(s) <==> as_set(before).contains(s)
                || (found_all && fresh && s == vec@) by {
                if as_set(result@).contains(s) {
                    let k = choose|k: int| 0 <= k < result@.len() && (#[trigger] result@[k])@ == s;
                    if k < before.len() {
                        assert(before[k]@ == s);
                    }
                }
                if as_set(before).contains(s) {
                    let k = choose|k: int| 0 <= k < before.len() && (#[trigger] before[k])@ == s;
                    assert(result@[k]@ == s);
                }
                if found_all && fresh && s == vec@ {
                    assert(result@[before.len() as int]@ == s);
                }
            }
            assert forall|s: Seq<T>|
                #![trigger as_set(result@).contains(s)]
                as_set(result@).contains(s) <==> closed_members(as_set(vecs@)).contains(s)
                    && as_set(more).contains(s) by {
                let closed = closed_members(as_set(vecs@)).contains(s);
                assert(as_set(more).contains(s) <==> as_set(part).contains(s) || s == vec@);
                assert(as_set(result@).contains(s) <==> as_set(before).contains(s) || (found_all
                    && fresh && s == vec@));
                assert(as_set(before).contains(s) <==> closed && as_set(part).contains(s));
                if s == vec@ {
                    assert(as_set(subs@) == sublists(s));
                    assert(closed == found_all);
                    assert(fresh == !as_set(before).contains(s));
                }
            }
            assert forall|a: int, b: int| 0 <= a < b < result@.len() implies result@[a]@
                != result@[b]@ by {
                if b == before.len() {
                    assert(before[a] == result@[a]);
                    assert(as_set(before).contains(before[a]@));
                }
            }
        }
        i += 1;
    }
    proof {
        assert(vecs@.subrange(0, i as int) =~= vecs@);
        assert(as_set(result@) =~= closed_members(as_set(vecs@)));
    }
    result
}

/// Whether `v` is a sublist of a list of `lists` other than `v` itself.
fn has_larger<T: Clone + Eq>(lists: &Vec<Vec<T>>, v: &Vec<T>) -> (found: bool)
    requires
        faithful::<T>(),
        forall|k: int| 0 <= k < lists.len() ==> (#[trigger] lists@[k]).len() < 32,
    ensures
        found == exists|o: Seq<T>|
            as_set(lists@).contains(o) && o != v@ && #[trigger] sublists(o).contains(v@),
{
    let mut i: usize = 0;
    while i < lists.len()
        invariant
            i <= lists.len(),
            faithful::<T>(),
            forall|k: int| 0 <= k < lists.len() ==> (#[trigger] lists@[k]).len() < 32,
            forall|k: int|
                0 <= k < i ==> !((#[trigger] lists@[k])@ != v@ && sublists(lists@[k]@).contains(v@)),
        decreases lists.len() - i,
    {
        let other = &lists[i];
        if !same_items(other, v) {
            let subs = sublists_of(other);
            if holds(&subs, v) {
                assert(as_set(lists@).contains(other@));
                return true;
            }
        }
        i += 1;
    }
    proof {
        assert forall|o: Seq<T>| as_set(lists@).contains(o) && o != v@ implies !#[trigger] sublists(
            o,
        ).contains(v@) by {
            let k = choose|k: int| 0 <= k < lists@.len() && (#[trigger] lists@[k])@ == o;
            assert(lists@[k]@ == o);
        }
    }
    false
}

/// The lists of `all_substrings_present` that are a sublist of no other
/// list of it, each once.
pub fn no_larger_candidate<T: Clone + Eq>(all_substrings_present: &Vec<Vec<T>>) -> (result: Vec<
    Vec<T>,
>)
    requires
        faithful::<T>(),
        forall|k: int|
            0 <= k < all_substrings_present.len() ==> (#[trigger] all_substrings_present@[k]).len()
                < 32,
    ensures
        as_set(result@) == largest_members(as_set(all_substrings_present@)),
        distinct(result@),
{
    let lists = all_substrings_present;
    let mut result: Vec<Vec<T>> = Vec::new();
    let mut i: usize = 0;
    while i < lists.len()
        invariant
            i <= lists.len(),
            faithful::<T>(),
            forall|k: int| 0 <= k < lists.len() ==> (#[trigger] lists@[k]).len() < 32,
            distinct(result@),
            forall|s: Seq<T>|
                #![trigger as_set(result@).contains(s)]
                as_set(result@).contains(s) <==> largest_members(as_set(lists@)).contains(s)
                    && as_set(lists@.subrange(0, i as int)).contains(s),
        decreases lists.len() - i,
    {
        let ghost before = result@;
        let vec = &lists[i];
        let found_larger = has_larger(lists, vec);
        let fresh = !holds(&result, vec);
        if !found_larger && fresh {
            result.push(copy_of(vec));
        }
        proof {
            let part = lists@.subrange(0, i as int);
            let more = lists@.subrange(0, i + 1);
            assert(as_set(lists@).contains(lists@[i as int]@));
            assert(more[i as int] == lists@[i as int]);
            assert forall|s: Seq<T>| as_set(more).contains(s) <==> as_set(part).contains(s) || s
                == vec@ by {
                if as_set(more).contains(s) {
                    let k = choose|k: int| 0 <= k < more.len() && (#[trigger] more[k])@ == s;
                    if k < i {
                        assert(part[k]@ == s);
                    }
                }
                if as_set(part).contains(s) {
                    let k = choose|k: int| 0 <= k < part.len() && (#[trigger] part[k])@ == s;
                    assert(more[k]@ == s);
                }
            }
            assert forall|s: Seq<T>| as_set(result@).contains(s) <==> as_set(before).contains(s)
                || (!found_larger && fresh && s == vec@) by {
                if as_set(result@).contains(s) {
                    let k = choose|k: int| 0 <= k < result@.len() && (#[trigger] result@[k])@ == s;
                    if k < before.len() {
                        assert(before[k]@ == s);
                    }
                }
                if as_set(before).contains(s) {
                    let k = choose|k: int| 0 <= k < before.len() && (#[trigger] before[k])@ == s;
                    assert(result@[k]@ == s);
                }
                if !found_larger && fresh && s == vec@ {
                    assert(result@[before.len() as int]@ == s);
                }
            }
            assert forall|s: Seq<T>|
                #![trigger as_set(result@).contains(s)]
                as_set(result@).contains(s) <==> largest_members(as_set(lists@)).contains(s)
                    && as_set(more).contains(s) by {
                let largest = largest_members(as_set(lists@)).contains(s);
                assert(as_set(more).contains(s) <==> as_set(part).contains(s) || s == vec@);
                assert(as_set(result@).contains(s) <==> as_set(before).contains(s) || (
                !found_larger && fresh && s == vec@));
                assert(as_set(before).contains(s) <==> largest && as_set(part).contains(s));
                if s == vec@ {
                    assert(largest == !found_larger);
                    assert(fresh == !as_set(before).contains(s));
                }
            }
            assert forall|a: int, b: int| 0 <= a < b < result@.len() implies result@[a]@
                != result@[b]@ by {
                if b == before.len() {
                    assert(before[a] == result@[a]);
                    assert(as_set(before).contains(before[a]@));
                }
            }
        }
        i += 1;
    }
    proof {
        assert(lists@.subrange(0, i as int) =~= lists@);
        assert(as_set(result@) =~= largest_members(as_set(lists@)));
    }
    result
}

/// The candidates among `vecs`: the lists all of whose sublists are in
/// `vecs` and that are a sublist of no other such list, each once.
pub fn similarity_candidates<T: Clone + Eq>(vecs: &Vec<Vec<T>>) -> (result: Vec<Vec<T>>)
    requires
        faithful::<T>(),
        forall|k: int| 0 <= k < vecs.len() ==> (#[trigger] vecs@[k]).len() < 32,
    ensures
        as_set(result@) == largest_members(closed_members(as_set(vecs@))),
        distinct(result@),
{
    let all_substrings_present = all_substrings_present(vecs);
    proof {
        assert forall|k: int| 0 <= k < all_substrings_present.len() implies (
        #[trigger] all_substrings_present@[k]).len() < 32 by {
            let s = all_substrings_present@[k]@;
            assert(as_set(all_substrings_present@).contains(s));
            assert(as_set(vecs@).contains(s));
            let j = choose|j: int| 0 <= j < vecs@.len() && (#[trigger] vecs@[j])@ == s;
            assert(vecs@[j].len() < 32);
        }
    }
    no_larger_candidate(&all_substrings_present)
}

/// A mask chooses no more places than there are.
pub proof fn lemma_chosen_len(mask: usize, n: nat)
    ensures
        chosen(mask, n).len() <= n,
    decreases n,
{
    if n > 0 {
        lemma_chosen_len(mask, (n - 1) as nat);
    }
}

/// What two lists have in common: the sublists of both, as far as they are a
/// sublist of no other sublist of both. (A sublist of a sublist of both is a
/// sublist of both, but the candidates are computed as if that were not
/// known.)
pub fn similarity<T: Clone + Eq>(vec1: &Vec<T>, vec2: &Vec<T>) -> (result: Vec<Vec<T>>)
    requires
        faithful::<T>(),
        vec1.len() < 32,
        vec2.len() < 32,
    ensures
        as_set(result@) == largest_members(
            closed_members(sublists(vec1@).intersect(sublists(vec2@))),
        ),
        distinct(result@),
{
    let ss1 = sublists_of(vec1);
    let ss2 = sublists_of(vec2);
    let mut inters: Vec<Vec<T>> = Vec::new();
    let mut i: usize = 0;
    while i < ss1.len()
        invariant
            i <= ss1.len(),
            faithful::<T>(),
            vec1.len() < 32,
            as_set(ss1@) == sublists(vec1@),
            as_set(ss2@) == sublists(vec2@),
            forall|k: int| 0 <= k < inters.len() ==> (#[trigger] inters@[k]).len() < 32,
            forall|s: Seq<T>|
                #![trigger as_set(inters@).contains(s)]
                as_set(inters@).contains(s) <==> as_set(ss2@).contains(s) && as_set(
                    ss1@.subrange(0, i as int),
                ).contains(s),
        decreases ss1.len() - i,
    {
        let ghost before = inters@;
        let common = holds(&ss2, &ss1[i]);
        if common {
            inters.push(copy_of(&ss1[i]));
        }
        proof {
            let vec = ss1@[i as int];
            let part = ss1@.subrange(0, i as int);
            let more = ss1@.subrange(0, i + 1);
            assert(more[i as int] == vec);
            assert(as_set(ss1@).contains(vec@));
            let mask = choose|mask: usize| mask < pow2(vec1@.len()) && vec@ == pick(vec1@, mask);
            lemma_chosen_len(mask, vec1@.len());
            assert forall|s: Seq<T>| as_set(more).contains(s) <==> as_set(part).contains(s) || s
                == vec@ by {
                if as_set(more).contains(s) {
                    let k = choose|k: int| 0 <= k < more.len() && (#[trigger] more[k])@ == s;
                    if k < i {
                        assert(part[k]@ == s);
                    }
                }
                if as_set(part).contains(s) {
                    let k = choose|k: int| 0 <= k < part.len() && (#[trigger] part[k])@ == s;
                    assert(more[k]@ == s);
                }
            }
            assert forall|s: Seq<T>| as_set(inters@).contains(s) <==> as_set(before).contains(s)
                || (common && s == vec@) by {
                if as_set(inters@).contains(s) {
                    let k = choose|k: int| 0 <= k < inters@.len() && (#[trigger] inters@[k])@ == s;
                    if k < before.len() {
                        assert(before[k]@ == s);
                    }
                }
                if as_set(before).contains(s) {
                    let k = choose|k: int| 0 <= k < before.len() && (#[trigger] before[k])@ == s;
                    assert(inters@[k]@ == s);
                }
                if common && s == vec@ {
                    assert(inters@[before.len() as int]@ == s);
                }
            }
            assert forall|s: Seq<T>|
                #![trigger as_set(inters@).contains(s)]
                as_set(inters@).contains(s) <==> as_set(ss2@).contains(s) && as_set(more).contains(
                    s,
                ) by {
                assert(as_set(more).contains(s) <==> as_set(part).contains(s) || s == vec@);
                assert(as_set(inters@).contains(s) <==> as_set(before).contains(s) || (common && s
                    == vec@));
                assert(as_set(before).contains(s) <==> as_set(ss2@).contains(s) && as_set(
                    part,
                ).contains(s));
            }
            assert forall|k: int| 0 <= k < inters.len() implies (#[trigger] inters@[k]).len()
                < 32 by {
                if k < before.len() {
                    assert(inters@[k] == before[k]);
                }
            }
        }
        i += 1;
    }
    proof {
        assert(ss1@.subrange(0, i as int) =~= ss1@);
        assert(as_set(inters@) =~= sublists(vec1@).intersect(sublists(vec2@)));
    }
    similarity_candidates(&inters)
}

} // verus!
