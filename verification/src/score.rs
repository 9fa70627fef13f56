use crate::similarity::as_set;
use crate::similarity::copy_of;
use crate::similarity::faithful;
use crate::similarity::pick;
use crate::similarity::same_items;
use crate::similarity::sublists;
use crate::similarity::sublists_of;
use crate::subsets::chosen;
use crate::subsets::lemma_chosen_in_range;
use crate::subsets::picked_by;
use crate::subsets::subsets;
use vstd::arithmetic::power2::pow2;
use vstd::prelude::*;

verus! {

/// The lists of a list of lists, as mathematical values.
pub open spec fn rows<T>(v: Seq<Vec<T>>) -> Seq<Seq<T>> {
    Seq::new(v.len(), |i: int| v[i]@)
}

/// The lists of lists that a list holds, as a set.
pub open spec fn as_rows_set<T>(list: Seq<Vec<Vec<T>>>) -> Set<Seq<Seq<T>>> {
    Set::new(
        |r: Seq<Seq<T>>| exists|k: int| 0 <= k < list.len() && rows((#[trigger] list[k])@) == r,
    )
}

/// The ways to choose, in each place of `v`, a sublist that is not empty of
/// the list in that place.
pub open spec fn choices<T>(v: Seq<Seq<T>>) -> Set<Seq<Seq<T>>> {
    Set::new(
        |r: Seq<Seq<T>>|
            r.len() == v.len() && forall|i: int|
                0 <= i < v.len() ==> (#[trigger] r[i]).len() > 0 && sublists(v[i]).contains(r[i]),
    )
}

/// The lists that come from a list of `prevs` by one more item of `lasts`.
pub open spec fn extended<T>(prevs: Set<Seq<Seq<T>>>, lasts: Set<Seq<T>>) -> Set<Seq<Seq<T>>> {
    Set::new(
        |r: Seq<Seq<T>>| r.len() > 0 && prevs.contains(r.drop_last()) && lasts.contains(r.last()),
    )
}

/// The sublists of `s` that are not empty.
pub open spec fn filled_sublists<T>(s: Seq<T>) -> Set<Seq<T>> {
    Set::new(|x: Seq<T>| x.len() > 0 && sublists(s).contains(x))
}

/// To choose in each place up to `k` is to choose in each place before `k`
/// and then in `k`.
pub proof fn lemma_choices_step<T>(v: Seq<Seq<T>>, k: int)
    requires
        0 <= k < v.len(),
    ensures
        choices(v.subrange(0, k + 1)) == extended(choices(v.subrange(0, k)), filled_sublists(v[k])),
{
    let more = v.subrange(0, k + 1);
    let less = v.subrange(0, k);
    assert forall|r: Seq<Seq<T>>| choices(more).contains(r) <==> extended(
        choices(less),
        filled_sublists(v[k]),
    ).contains(r) by {
        if choices(more).contains(r) {
            let head = r.drop_last();
            assert forall|i: int| 0 <= i < less.len() implies (#[trigger] head[i]).len() > 0
                && sublists(less[i]).contains(head[i]) by {
                assert(head[i] == r[i]);
                assert(less[i] == more[i]);
            }
            assert(r[k].len() > 0 && sublists(more[k]).contains(r[k]));
            assert(r.last() == r[k]);
        }
        if extended(choices(less), filled_sublists(v[k])).contains(r) {
            let head = r.drop_last();
            assert forall|i: int| 0 <= i < more.len() implies (#[trigger] r[i]).len() > 0
                && sublists(more[i]).contains(r[i]) by {
                if i < k {
                    assert(head[i] == r[i]);
                    assert(less[i] == more[i]);
                    assert(head[i].len() > 0 && sublists(less[i]).contains(head[i]));
                } else {
                    assert(r[i] == r.last());
                }
            }
        }
    }
    assert(choices(more) =~= extended(choices(less), filled_sublists(v[k])));
}

/// A copy of a list of lists.
pub fn copy_rows<T: Clone + Eq>(v: &Vec<Vec<T>>) -> (copy: Vec<Vec<T>>)
    requires
        faithful::<T>(),
    ensures
        rows(copy@) == rows(v@),
{
    let mut copy: Vec<Vec<T>> = Vec::new();
    let mut i: usize = 0;
    while i < v.len()
        invariant
            i <= v.len(),
            faithful::<T>(),
            copy@.len() == i,
            forall|k: int| 0 <= k < i ==> (#[trigger] copy@[k])@ == v@[k]@,
        decreases v.len() - i,
    {
        copy.push(copy_of(&v[i]));
        i += 1;
    }
    assert(rows(copy@) =~= rows(v@));
    copy
}

/// Whether two lists of lists hold the same lists in the same order.
pub fn same_rows<T: Clone + Eq>(a: &Vec<Vec<T>>, b: &Vec<Vec<T>>) -> (same: bool)
    requires
        faithful::<T>(),
    ensures
        same == (rows(a@) == rows(b@)),
{
    if a.len() != b.len() {
        assert(rows(a@).len() != rows(b@).len());
        return false;
    }
    let mut i: usize = 0;
    while i < a.len()
        invariant
            i <= a.len(),
            a.len() == b.len(),
            faithful::<T>(),
            forall|k: int| 0 <= k < i ==> a@[k]@ == b@[k]@,
        decreases a.len() - i,
    {
        if !same_items(&a[i], &b[i]) {
            assert(rows(a@)[i as int] != rows(b@)[i as int]);
            return false;
        }
        i += 1;
    }
    assert(rows(a@) =~= rows(b@));
    true
}

/// Whether `list` holds `v`.
pub fn holds_rows<T: Clone + Eq>(list: &Vec<Vec<Vec<T>>>, v: &Vec<Vec<T>>) -> (found: bool)
    requires
        faithful::<T>(),
    ensures
        found == as_rows_set(list@).contains(rows(v@)),
{
    let mut i: usize = 0;
    while i < list.len()
        invariant
            i <= list.len(),
            faithful::<T>(),
            forall|k: int| 0 <= k < i ==> rows((#[trigger] list@[k])@) != rows(v@),
        decreases list.len() - i,
    {
        if same_rows(&list[i], v) {
            return true;
        }
        i += 1;
    }
    false
}

/// The ways to choose, in each place of `vec`, a sublist that is not empty
/// of the list in that place: see [`choices`].
pub fn subvecs<T: Clone + Eq>(vec: &Vec<Vec<T>>) -> (result: Vec<Vec<Vec<T>>>)
    requires
        faithful::<T>(),
        forall|k: int| 0 <= k < vec.len() ==> (#[trigger] vec@[k]).len() < 32,
    ensures
        as_rows_set(result@) == choices(rows(vec@)),
{
    let ghost all = rows(vec@);
    let mut result: Vec<Vec<Vec<T>>> = Vec::new();
    result.push(Vec::new());
    let mut k: usize = 0;
    proof {
        assert(all.subrange(0, 0) =~= Seq::empty());
        assert forall|r: Seq<Seq<T>>| as_rows_set(result@).contains(r) <==> choices(
            all.subrange(0, 0),
        ).contains(r) by {
            if as_rows_set(result@).contains(r) {
                let i = choose|i: int| 0 <= i < result@.len() && rows((#[trigger] result@[i])@) == r;
                assert(r.len() == 0);
            }
            if choices(all.subrange(0, 0)).contains(r) {
                assert(r =~= rows(result@[0]@));
            }
        }
        assert(as_rows_set(result@) =~= choices(all.subrange(0, 0)));
    }
    while k < vec.len()
        invariant
            k <= vec.len(),
            faithful::<T>(),
            all == rows(vec@),
            forall|i: int| 0 <= i < vec.len() ==> (#[trigger] vec@[i]).len() < 32,
            as_rows_set(result@) == choices(all.subrange(0, k as int)),
        decreases vec.len() - k,
    {
        let subs = sublists_of(&vec[k]);
        let ghost prevs = as_rows_set(result@);
        let mut new_result: Vec<Vec<Vec<T>>> = Vec::new();
        let mut m: usize = 0;
        proof {
            assert(as_rows_set(new_result@) =~= extended(
                prevs,
                Set::new(|x: Seq<T>| x.len() > 0 && as_set(subs@.subrange(0, 0)).contains(x)),
            ));
        }
        while m < subs.len()
            invariant
                m <= subs.len(),
                faithful::<T>(),
                prevs == as_rows_set(result@),
                as_rows_set(new_result@) == extended(
                    prevs,
                    Set::new(
                        |x: Seq<T>| x.len() > 0 && as_set(subs@.subrange(0, m as int)).contains(x),
                    ),
                ),
            decreases subs.len() - m,
        {
            let ghost done = Set::new(
                |x: Seq<T>| x.len() > 0 && as_set(subs@.subrange(0, m as int)).contains(x),
            );
            let ghost next = Set::new(
                |x: Seq<T>| x.len() > 0 && as_set(subs@.subrange(0, m + 1)).contains(x),
            );
            let label_subset = &subs[m];
            proof {
                assert forall|x: Seq<T>|
                    as_set(subs@.subrange(0, m + 1)).contains(x) <==> as_set(
                        subs@.subrange(0, m as int),
                    ).contains(x) || x == label_subset@ by {
                    let more = subs@.subrange(0, m + 1);
                    let less = subs@.subrange(0, m as int);
                    if as_set(more).contains(x) {
                        let i = choose|i: int| 0 <= i < more.len() && (#[trigger] more[i])@ == x;
                        if i < m {
                            assert(less[i]@ == x);
                        }
                    }
                    if as_set(less).contains(x) {
                        let i = choose|i: int| 0 <= i < less.len() && (#[trigger] less[i])@ == x;
                        assert(more[i]@ == x);
                    }
                    if x == label_subset@ {
                        assert(more[m as int]@ == x);
                    }
                }
            }
            if label_subset.len() > 0 {
                let ghost before = as_rows_set(new_result@);
                let mut p: usize = 0;
                proof {
                    assert(as_rows_set(new_result@) =~= before.union(
                        extended(as_rows_set(result@.subrange(0, 0)), set![label_subset@]),
                    ));
                }
                while p < result.len()
                    invariant
                        p <= result.len(),
                        faithful::<T>(),
                        as_rows_set(new_result@) == before.union(
                            extended(
                                as_rows_set(result@.subrange(0, p as int)),
                                set![label_subset@],
                            ),
                        ),
                    decreases result.len() - p,
                {
                    let ghost old_new = new_result@;
                    let mut beginning = copy_rows(&result[p]);
                    let ghost start = rows(beginning@);
                    beginning.push(copy_of(label_subset));
                    let ghost made = rows(beginning@);
                    proof {
                        assert(made =~= start.push(label_subset@));
                        assert(made.drop_last() =~= rows(result@[p as int]@));
                        assert(made.last() == label_subset@);
                    }
                    new_result.push(beginning);
                    proof {
                        let less = result@.subrange(0, p as int);
                        let more = result@.subrange(0, p + 1);
                        assert(more[p as int] == result@[p as int]);
                        assert forall|r: Seq<Seq<T>>|
                            as_rows_set(more).contains(r) <==> as_rows_set(less).contains(r) || r
                                == rows(result@[p as int]@) by {
                            if as_rows_set(more).contains(r) {
                                let i = choose|i: int|
                                    0 <= i < more.len() && rows((#[trigger] more[i])@) == r;
                                if i < p {
                                    assert(rows(less[i]@) == r);
                                }
                            }
                            if as_rows_set(less).contains(r) {
                                let i = choose|i: int|
                                    0 <= i < less.len() && rows((#[trigger] less[i])@) == r;
                                assert(rows(more[i]@) == r);
                            }
                        }
                        assert forall|r: Seq<Seq<T>>|
                            as_rows_set(new_result@).contains(r) <==> as_rows_set(old_new).contains(
                                r,
                            ) || r == made by {
                            if as_rows_set(new_result@).contains(r) {
                                let i = choose|i: int|
                                    0 <= i < new_result@.len() && rows((#[trigger] new_result@[i])@)
                                        == r;
                                if i < old_new.len() {
                                    assert(rows(old_new[i]@) == r);
                                }
                            }
                            if as_rows_set(old_new).contains(r) {
                                let i = choose|i: int|
                                    0 <= i < old_new.len() && rows((#[trigger] old_new[i])@) == r;
                                assert(rows(new_result@[i]@) == r);
                            }
                            if r == made {
                                assert(rows(new_result@[old_new.len() as int]@) == r);
                            }
                        }
                        assert forall|r: Seq<Seq<T>>|
                            as_rows_set(new_result@).contains(r) <==> before.union(
                                extended(as_rows_set(more), set![label_subset@]),
                            ).contains(r) by {
                            assert(as_rows_set(new_result@).contains(r) <==> as_rows_set(
                                old_new,
                            ).contains(r) || r == made);
                            assert(as_rows_set(old_new).contains(r) <==> before.contains(r)
                                || extended(as_rows_set(less), set![label_subset@]).contains(r));
                            if r.len() > 0 && r.last() == label_subset@ && r.drop_last() == rows(
                                result@[p as int]@,
                            ) {
                                assert(r =~= made);
                            }
                            if r.len() > 0 {
                                assert(as_rows_set(more).contains(r.drop_last()) <==> as_rows_set(
                                    less,
                                ).contains(r.drop_last()) || r.drop_last() == rows(
                                    result@[p as int]@,
                                ));
                            }
                        }
                        assert(as_rows_set(new_result@) =~= before.union(
                            extended(as_rows_set(more), set![label_subset@]),
                        ));
                    }
                    p += 1;
                }
                proof {
                    assert(result@.subrange(0, p as int) =~= result@);
                    assert(as_rows_set(new_result@) =~= extended(prevs, next)) by {
                        assert forall|r: Seq<Seq<T>>|
                            as_rows_set(new_result@).contains(r) <==> extended(prevs, next).contains(
                                r,
                            ) by {
                            assert(as_rows_set(new_result@).contains(r) <==> extended(
                                prevs,
                                done,
                            ).contains(r) || extended(prevs, set![label_subset@]).contains(r));
                            if r.len() > 0 {
                                let x = r.last();
                                assert(as_set(subs@.subrange(0, m + 1)).contains(x) <==> as_set(
                                    subs@.subrange(0, m as int),
                                ).contains(x) || x == label_subset@);
                                assert(next.contains(x) <==> done.contains(x) || x
                                    == label_subset@);
                            }
                        }
                    }
                }
            } else {
                proof {
                    assert(next =~= done);
                }
            }
            m += 1;
        }
        proof {
            assert(subs@.subrange(0, m as int) =~= subs@);
            assert(all[k as int] == vec@[k as int]@);
            assert(Set::new(|x: Seq<T>| x.len() > 0 && as_set(subs@).contains(x))
                =~= filled_sublists(all[k as int]));
            lemma_choices_step(all, k as int);
        }
        result = new_result;
        k += 1;
    }
    proof {
        assert(all.subrange(0, k as int) =~= all);
    }
    result
}

/// A clone of a list holds the items of the list.
pub proof fn lemma_cloned_list<T: Clone + Eq>(a: Vec<T>, b: Vec<T>)
    requires
        faithful::<T>(),
        cloned::<Vec<T>>(a, b),
    ensures
        b@ == a@,
{
    if a != b {
        assert(call_ensures(<Vec<T> as Clone>::clone, (&a,), b));
        assert(b.len() == a.len());
        assert forall|i: int| 0 <= i < a.len() implies a@[i] == b@[i] by {
            assert(cloned::<T>(a[i], b[i]));
        }
        assert(b@ =~= a@);
    }
}

/// The sublists of a list that are not empty, each with the ways to choose,
/// in each of its places, a sublist that is not empty of the list in that
/// place: all of these ways.
pub open spec fn parts<T>(v: Seq<Seq<T>>) -> Set<Seq<Seq<T>>> {
    Set::new(
        |r: Seq<Seq<T>>|
            exists|mask: usize|
                mask < pow2(v.len()) && pick(v, mask).len() > 0 && #[trigger] choices(
                    pick(v, mask),
                ).contains(r),
    )
}

/// The parts of the lists of `scores`.
pub open spec fn all_parts<T>(scores: Seq<Vec<Vec<T>>>) -> Set<Seq<Seq<T>>> {
    Set::new(
        |r: Seq<Seq<T>>|
            exists|i: int| 0 <= i < scores.len() && #[trigger] parts(rows(scores[i]@)).contains(r),
    )
}

/// Whether no list of lists occurs twice.
pub open spec fn distinct_rows<T>(list: Seq<Vec<Vec<T>>>) -> bool {
    forall|a: int, b: int| 0 <= a < b < list.len() ==> rows(list[a]@) != rows(list[b]@)
}

/// The realizations of a representation in tiers: each a list of sets of
/// autosegments that sound together, one set after the other.
pub struct Score<T>(pub Vec<Vec<Vec<T>>>);

impl<T: Clone + Eq> Score<T> {
    /// The parts of the realizations, each once: see [`parts`].
    pub fn substrings(&self) -> (result: Vec<Vec<Vec<T>>>)
        requires
            faithful::<T>(),
            forall|i: int| 0 <= i < self.0.len() ==> (#[trigger] self.0@[i]).len() < 32,
            forall|i: int, k: int|
                0 <= i < self.0.len() && 0 <= k < self.0@[i].len() ==> (#[trigger] self.0@[i]@[k]).len()
                    < 32,
        ensures
            as_rows_set(result@) == all_parts(self.0@),
            distinct_rows(result@),
    {
        let mut result: Vec<Vec<Vec<T>>> = Vec::new();
        let mut i: usize = 0;
        proof {
            assert(as_rows_set(result@) =~= all_parts(self.0@.subrange(0, 0)));
        }
        while i < self.0.len()
            invariant
                i <= self.0.len(),
                faithful::<T>(),
                forall|j: int| 0 <= j < self.0.len() ==> (#[trigger] self.0@[j]).len() < 32,
                forall|j: int, k: int|
                    0 <= j < self.0.len() && 0 <= k < self.0@[j].len() ==> (
                    #[trigger] self.0@[j]@[k]).len() < 32,
                distinct_rows(result@),
                as_rows_set(result@) == all_parts(self.0@.subrange(0, i as int)),
            decreases self.0.len() - i,
        {
            let v = &self.0[i];
            let ghost whole = rows(v@);
            let ghost earlier = as_rows_set(result@);
            let subs = subsets(v);
            let mut m: usize = 0;
            while m < subs.len()
                invariant
                    m <= subs.len(),
                    faithful::<T>(),
                    whole == rows(v@),
                    v@.len() < 32,
                    forall|k: int| 0 <= k < v@.len() ==> (#[trigger] v@[k]).len() < 32,
                    subs.len() == pow2(v@.len()),
                    forall|j: int|
                        0 <= j < subs.len() ==> picked_by((#[trigger] subs@[j])@, v@, j as usize),
                    distinct_rows(result@),
                    forall|r: Seq<Seq<T>>|
                        #![trigger as_rows_set(result@).contains(r)]
                        as_rows_set(result@).contains(r) <==> earlier.contains(r) || exists|
                            mask: usize,
                        |
                            mask < m && pick(whole, mask).len() > 0 && #[trigger] choices(
                                pick(whole, mask),
                            ).contains(r),
                decreases subs.len() - m,
            {
                let vec = &subs[m];
                let ghost part = pick(whole, m);
                let ghost so_far = as_rows_set(result@);
                proof {
                    lemma_chosen_in_range(m, v@.len());
                    assert(picked_by(vec@, v@, m));
                    assert forall|k: int| 0 <= k < vec@.len() implies (#[trigger] vec@[k])@
                        == part[k] && vec@[k].len() < 32 by {
                        let j = chosen(m, v@.len())[k];
                        assert(cloned(v@[j], vec@[k]));
                        lemma_cloned_list(v@[j], vec@[k]);
                        assert(v@[j].len() < 32);
                    }
                    assert(rows(vec@) =~= part);
                }
                if vec.len() > 0 {
                    let found = subvecs(vec);
                    let mut n: usize = 0;
                    while n < found.len()
                        invariant
                            n <= found.len(),
                            faithful::<T>(),
                            distinct_rows(result@),
                            forall|r: Seq<Seq<T>>|
                                #![trigger as_rows_set(result@).contains(r)]
                                as_rows_set(result@).contains(r) <==> so_far.contains(r)
                                    || as_rows_set(found@.subrange(0, n as int)).contains(r),
                        decreases found.len() - n,
                    {
                        let subvec = &found[n];
                        let ghost before = result@;
                        let fresh = !holds_rows(&result, subvec);
                        if fresh {
                            result.push(copy_rows(subvec));
                        }
                        proof {
                            let less = found@.subrange(0, n as int);
                            let more = found@.subrange(0, n + 1);
                            assert(more[n as int] == found@[n as int]);
                            assert forall|r: Seq<Seq<T>>|
                                as_rows_set(more).contains(r) <==> as_rows_set(less).contains(r)
                                    || r == rows(subvec@) by {
                                if as_rows_set(more).contains(r) {
                                    let j = choose|j: int|
                                        0 <= j < more.len() && rows((#[trigger] more[j])@) == r;
                                    if j < n {
                                        assert(rows(less[j]@) == r);
                                    }
                                }
                                if as_rows_set(less).contains(r) {
                                    let j = choose|j: int|
                                        0 <= j < less.len() && rows((#[trigger] less[j])@) == r;
                                    assert(rows(more[j]@) == r);
                                }
                            }
                            assert forall|r: Seq<Seq<T>>|
                                as_rows_set(result@).contains(r) <==> as_rows_set(before).contains(
                                    r,
                                ) || (fresh && r == rows(subvec@)) by {
                                if as_rows_set(result@).contains(r) {
                                    let j = choose|j: int|
                                        0 <= j < result@.len() && rows((#[trigger] result@[j])@)
                                            == r;
                                    if j < before.len() {
                                        assert(rows(before[j]@) == r);
                                    }
                                }
                                if as_rows_set(before).contains(r) {
                                    let j = choose|j: int|
                                        0 <= j < before.len() && rows((#[trigger] before[j])@) == r;
                                    assert(rows(result@[j]@) == r);
                                }
                                if fresh && r == rows(subvec@) {
                                    assert(rows(result@[before.len() as int]@) == r);
                                }
                            }
                            assert forall|r: Seq<Seq<T>>|
                                #![trigger as_rows_set(result@).contains(r)]
                                as_rows_set(result@).contains(r) <==> so_far.contains(r)
                                    || as_rows_set(more).contains(r) by {
                                assert(as_rows_set(result@).contains(r) <==> as_rows_set(
                                    before,
                                ).contains(r) || (fresh && r == rows(subvec@)));
                                assert(as_rows_set(before).contains(r) <==> so_far.contains(r)
                                    || as_rows_set(less).contains(r));
                                assert(as_rows_set(more).contains(r) <==> as_rows_set(
                                    less,
                                ).contains(r) || r == rows(subvec@));
                                if r == rows(subvec@) {
                                    assert(fresh == !as_rows_set(before).contains(r));
                                }
                            }
                            assert forall|x: int, y: int|
                                0 <= x < y < result@.len() implies rows(result@[x]@) != rows(
                                result@[y]@,
                            ) by {
                                if y == before.len() {
                                    assert(before[x] == result@[x]);
                                    assert(as_rows_set(before).contains(rows(before[x]@)));
                                }
                            }
                        }
                        n += 1;
                    }
                    proof {
                        assert(found@.subrange(0, n as int) =~= found@);
                    }
                }
                proof {
                    assert forall|r: Seq<Seq<T>>|
                        #![trigger as_rows_set(result@).contains(r)]
                        as_rows_set(result@).contains(r) <==> earlier.contains(r) || exists|
                            mask: usize,
                        |
                            mask < m + 1 && pick(whole, mask).len() > 0 && #[trigger] choices(
                                pick(whole, mask),
                            ).contains(r) by {
                        let here = part.len() > 0 && choices(part).contains(r);
                        assert(as_rows_set(result@).contains(r) <==> so_far.contains(r) || here);
                        if exists|mask: usize|
                            mask < m && pick(whole, mask).len() > 0 && #[trigger] choices(
                                pick(whole, mask),
                            ).contains(r) {
                            let mask = choose|mask: usize|
                                mask < m && pick(whole, mask).len() > 0 && #[trigger] choices(
                                    pick(whole, mask),
                                ).contains(r);
                            assert(mask < m + 1 && pick(whole, mask).len() > 0 && choices(
                                pick(whole, mask),
                            ).contains(r));
                        }
                        if here {
                            assert(m < m + 1 && pick(whole, m).len() > 0 && choices(
                                pick(whole, m),
                            ).contains(r));
                        }
                        if exists|mask: usize|
                            mask < m + 1 && pick(whole, mask).len() > 0 && #[trigger] choices(
                                pick(whole, mask),
                            ).contains(r) {
                            let mask = choose|mask: usize|
                                mask < m + 1 && pick(whole, mask).len() > 0 && #[trigger] choices(
                                    pick(whole, mask),
                                ).contains(r);
                            if mask < m {
                                assert(mask < m && pick(whole, mask).len() > 0 && choices(
                                    pick(whole, mask),
                                ).contains(r));
                            }
                        }
                    }
                }
                m += 1;
            }
            proof {
                let less = self.0@.subrange(0, i as int);
                let more = self.0@.subrange(0, i + 1);
                assert(more[i as int] == self.0@[i as int]);
                assert forall|r: Seq<Seq<T>>|
                    as_rows_set(result@).contains(r) <==> all_parts(more).contains(r) by {
                    assert(as_rows_set(result@).contains(r) <==> earlier.contains(r) || parts(
                        whole,
                    ).contains(r));
                    if all_parts(more).contains(r) {
                        let j = choose|j: int|
                            0 <= j < more.len() && #[trigger] parts(rows(more[j]@)).contains(r);
                        if j < i {
                            assert(parts(rows(less[j]@)).contains(r));
                        }
                    }
                    if all_parts(less).contains(r) {
                        let j = choose|j: int|
                            0 <= j < less.len() && #[trigger] parts(rows(less[j]@)).contains(r);
                        assert(parts(rows(more[j]@)).contains(r));
                    }
                    if parts(whole).contains(r) {
                        assert(parts(rows(more[i as int]@)).contains(r));
                    }
                }
                assert(as_rows_set(result@) =~= all_parts(more));
            }
            i += 1;
        }
        proof {
            assert(self.0@.subrange(0, i as int) =~= self.0@);
        }
        result
    }
}

} // verus!
