use crate::table::abstraction_at;
use crate::table::has_column;
use crate::table::SlotModel;
use crate::table::Table;
use crate::table::Tier;
use crate::weight::lemma_abstraction_lighter;
use crate::weight::weight;
use vstd::prelude::*;

verus! {

/// Whether all tiers of a table have the same number of slots.
pub open spec fn rectangular(t: Seq<Seq<SlotModel>>) -> bool {
    forall|i: int, k: int| 0 <= i < t.len() && 0 <= k < t.len() ==> t[i].len() == t[k].len()
}

/// Whether `t` is the abstraction of `base` at one of its cells.
pub open spec fn is_abstraction_of(t: Seq<Seq<SlotModel>>, base: Seq<Seq<SlotModel>>) -> bool {
    exists|i: int, j: int|
        0 <= i < base.len() && 0 <= j < base[i].len() && #[trigger] abstraction_at(base, i, j)
            == Some(t)
}

/// Whether `t` comes from `base` by `n` abstractions, one after the other.
pub open spec fn derives_in(base: Seq<Seq<SlotModel>>, t: Seq<Seq<SlotModel>>, n: nat) -> bool
    decreases n,
{
    if n == 0 {
        t == base
    } else {
        exists|mid: Seq<Seq<SlotModel>>| #[trigger]
            is_abstraction_of(mid, base) && derives_in(mid, t, (n - 1) as nat)
    }
}

/// Whether `t` comes from `base` by abstractions, none or more.
pub open spec fn derives(base: Seq<Seq<SlotModel>>, t: Seq<Seq<SlotModel>>) -> bool {
    exists|n: nat| derives_in(base, t, n)
}

/// The tables that a list holds, as a set.
pub open spec fn as_tables(list: Seq<Table>) -> Set<Seq<Seq<SlotModel>>> {
    Set::new(|t: Seq<Seq<SlotModel>>| exists|k: int| 0 <= k < list.len() && (#[trigger] list[k])@ == t)
}

/// Whether no table occurs twice in a list.
pub open spec fn distinct_tables(list: Seq<Table>) -> bool {
    forall|a: int, b: int| 0 <= a < b < list.len() ==> list[a]@ != list[b]@
}

/// What comes from a table by abstractions is the table itself and what
/// comes from its abstractions.
pub proof fn lemma_derives_unfold(base: Seq<Seq<SlotModel>>, t: Seq<Seq<SlotModel>>)
    ensures
        derives(base, t) <==> t == base || exists|mid: Seq<Seq<SlotModel>>| #[trigger]
            is_abstraction_of(mid, base) && derives(mid, t),
{
    if derives(base, t) {
        let n = choose|n: nat| derives_in(base, t, n);
        if n > 0 {
            let mid = choose|mid: Seq<Seq<SlotModel>>| #[trigger]
                is_abstraction_of(mid, base) && derives_in(mid, t, (n - 1) as nat);
            assert(derives(mid, t));
        }
    }
    if t == base {
        assert(derives_in(base, t, 0));
    }
    if exists|mid: Seq<Seq<SlotModel>>| #[trigger] is_abstraction_of(mid, base) && derives(mid, t) {
        let mid = choose|mid: Seq<Seq<SlotModel>>| #[trigger]
            is_abstraction_of(mid, base) && derives(mid, t);
        let n = choose|n: nat| derives_in(mid, t, n);
        assert(derives_in(base, t, n + 1));
    }
}

/// An abstraction of a table whose tiers have one length has tiers of one
/// length, and weighs less.
pub proof fn lemma_abstraction_step(base: Seq<Seq<SlotModel>>, t: Seq<Seq<SlotModel>>)
    requires
        rectangular(base),
        is_abstraction_of(t, base),
    ensures
        rectangular(t),
        weight(t) < weight(base),
{
    let (i, j) = choose|i: int, j: int|
        0 <= i < base.len() && 0 <= j < base[i].len() && #[trigger] abstraction_at(base, i, j)
            == Some(t);
    assert forall|k: int| 0 <= k < base.len() implies 0 <= j < (#[trigger] base[k]).len() by {
        assert(base[k].len() == base[i].len());
    }
    lemma_abstraction_lighter(base, i, j);
    assert forall|a: int, b: int| 0 <= a < t.len() && 0 <= b < t.len() implies t[a].len()
        == t[b].len() by {
        assert(base[a].len() == base[b].len());
    }
}

/// Whether `found` has everything that comes from `t` by abstractions.
pub open spec fn complete(t: Seq<Seq<SlotModel>>, found: Set<Seq<Seq<SlotModel>>>) -> bool {
    forall|x: Seq<Seq<SlotModel>>| #[trigger] derives(t, x) ==> found.contains(x)
}

impl<'a> Clone for Table<'a> {
    /// A copy of the table.
    fn clone(&self) -> (copy: Self)
        ensures
            copy@ == self@,
    {
        let mut tiers: Vec<Tier<'a>> = Vec::new();
        let mut i: usize = 0;
        while i < self.tiers.len()
            invariant
                i <= self.tiers.len(),
                tiers@.len() == i,
                forall|k: int| 0 <= k < i ==> (#[trigger] tiers@[k])@ == self@[k],
            decreases self.tiers.len() - i,
        {
            tiers.push(self.tiers[i].clone());
            i += 1;
        }
        let copy = Table { tiers };
        assert(copy@ =~= self@);
        copy
    }
}

impl<'a> Table<'a> {
    /// Whether two tables hold the same tiers in the same order.
    pub fn same(&self, other: &Table<'a>) -> (b: bool)
        ensures
            b == (self@ == other@),
    {
        if self.tiers.len() != other.tiers.len() {
            assert(self@.len() != other@.len());
            return false;
        }
        let mut i: usize = 0;
        while i < self.tiers.len()
            invariant
                i <= self.tiers.len(),
                self.tiers.len() == other.tiers.len(),
                forall|k: int| 0 <= k < i ==> self@[k] == other@[k],
            decreases self.tiers.len() - i,
        {
            if !self.tiers[i].same(&other.tiers[i]) {
                assert(self@[i as int] != other@[i as int]);
                return false;
            }
            i += 1;
        }
        assert(self@ =~= other@);
        true
    }

    /// Whether `list` holds this table.
    pub fn held_in(&self, list: &Vec<Table<'a>>) -> (found: bool)
        ensures
            found == as_tables(list@).contains(self@),
    {
        let mut i: usize = 0;
        while i < list.len()
            invariant
                i <= list.len(),
                forall|k: int| 0 <= k < i ==> (#[trigger] list@[k])@ != self@,
            decreases list.len() - i,
        {
            if list[i].same(self) {
                return true;
            }
            i += 1;
        }
        false
    }

    /// The abstractions of the table at each of its cells, each table once.
    pub fn immediate_abstractions(&self) -> (result: Vec<Table<'a>>)
        requires
            rectangular(self@),
        ensures
            distinct_tables(result@),
            forall|t: Seq<Seq<SlotModel>>| #[trigger]
                as_tables(result@).contains(t) <==> is_abstraction_of(t, self@),
    {
        let mut result: Vec<Table<'a>> = Vec::new();
        let mut i: usize = 0;
        while i < self.tiers.len()
            invariant
                i <= self.tiers.len(),
                rectangular(self@),
                distinct_tables(result@),
                forall|t: Seq<Seq<SlotModel>>| #[trigger]
                    as_tables(result@).contains(t) <==> exists|x: int, y: int|
                        0 <= x < i && 0 <= y < self@[x].len() && #[trigger] abstraction_at(
                            self@,
                            x,
                            y,
                        ) == Some(t),
            decreases self.tiers.len() - i,
        {
            let tier = &self.tiers[i];
            assert(self@[i as int] == tier@);
            let mut j: usize = 0;
            while j < tier.slots.len()
                invariant
                    i < self.tiers.len(),
                    j <= tier.slots.len(),
                    self@[i as int] == tier@,
                    tier@.len() == tier.slots.len(),
                    rectangular(self@),
                    distinct_tables(result@),
                    forall|t: Seq<Seq<SlotModel>>| #[trigger]
                        as_tables(result@).contains(t) <==> exists|x: int, y: int|
                            (0 <= x < i && 0 <= y < self@[x].len() || x == i && 0 <= y < j)
                                && #[trigger] abstraction_at(self@, x, y) == Some(t),
                decreases tier.slots.len() - j,
            {
                let ghost before = result@;
                proof {
                    assert forall|k: int| 0 <= k < self@.len() implies 0 <= j < (
                    #[trigger] self@[k]).len() by {
                        assert(self@[k].len() == self@[i as int].len());
                    }
                }
                let made = self.abstract_element(i, j);
                let ghost now = abstraction_at(self@, i as int, j as int);
                match made {
                    Some(new_tab) => {
                        if !new_tab.held_in(&result) {
                            result.push(new_tab);
                        }
                    },
                    None => {},
                }
                proof {
                    assert forall|t: Seq<Seq<SlotModel>>|
                        as_tables(result@).contains(t) <==> as_tables(before).contains(t) || now
                            == Some(t) by {
                        if as_tables(result@).contains(t) {
                            let k = choose|k: int|
                                0 <= k < result@.len() && (#[trigger] result@[k])@ == t;
                            if k < before.len() {
                                assert(before[k]@ == t);
                            }
                        }
                        if as_tables(before).contains(t) {
                            let k = choose|k: int|
                                0 <= k < before.len() && (#[trigger] before[k])@ == t;
                            assert(result@[k]@ == t);
                        }
                        if now == Some(t) && !as_tables(before).contains(t) {
                            assert(result@[before.len() as int]@ == t);
                        }
                    }
                    assert forall|t: Seq<Seq<SlotModel>>| #[trigger]
                        as_tables(result@).contains(t) <==> exists|x: int, y: int|
                            (0 <= x < i && 0 <= y < self@[x].len() || x == i && 0 <= y < j + 1)
                                && #[trigger] abstraction_at(self@, x, y) == Some(t) by {
                        assert(as_tables(result@).contains(t) <==> as_tables(before).contains(t)
                            || now == Some(t));
                        if as_tables(before).contains(t) {
                            let (x, y) = choose|x: int, y: int|
                                (0 <= x < i && 0 <= y < self@[x].len() || x == i && 0 <= y < j)
                                    && #[trigger] abstraction_at(self@, x, y) == Some(t);
                            assert((0 <= x < i && 0 <= y < self@[x].len() || x == i && 0 <= y < j
                                + 1) && abstraction_at(self@, x, y) == Some(t));
                        }
                        if now == Some(t) {
                            assert(abstraction_at(self@, i as int, j as int) == Some(t));
                        }
                        if exists|x: int, y: int|
                            (0 <= x < i && 0 <= y < self@[x].len() || x == i && 0 <= y < j + 1)
                                && #[trigger] abstraction_at(self@, x, y) == Some(t) {
                            let (x, y) = choose|x: int, y: int|
                                (0 <= x < i && 0 <= y < self@[x].len() || x == i && 0 <= y < j + 1)
                                    && #[trigger] abstraction_at(self@, x, y) == Some(t);
                            if !(x == i && y == j) {
                                assert((0 <= x < i && 0 <= y < self@[x].len() || x == i && 0 <= y
                                    < j) && abstraction_at(self@, x, y) == Some(t));
                            }
                        }
                    }
                    assert forall|a: int, b: int| 0 <= a < b < result@.len() implies result@[a]@
                        != result@[b]@ by {
                        if b == before.len() {
                            assert(before[a] == result@[a]);
                            assert(as_tables(before).contains(before[a]@));
                        }
                    }
                }
                j += 1;
            }
            proof {
                assert forall|t: Seq<Seq<SlotModel>>| #[trigger]
                    as_tables(result@).contains(t) <==> exists|x: int, y: int|
                        0 <= x < i + 1 && 0 <= y < self@[x].len() && #[trigger] abstraction_at(
                            self@,
                            x,
                            y,
                        ) == Some(t) by {
                    if as_tables(result@).contains(t) {
                        let (x, y) = choose|x: int, y: int|
                            (0 <= x < i && 0 <= y < self@[x].len() || x == i && 0 <= y < j)
                                && #[trigger] abstraction_at(self@, x, y) == Some(t);
                        assert(0 <= x < i + 1 && 0 <= y < self@[x].len() && abstraction_at(
                            self@,
                            x,
                            y,
                        ) == Some(t));
                    }
                    if exists|x: int, y: int|
                        0 <= x < i + 1 && 0 <= y < self@[x].len() && #[trigger] abstraction_at(
                            self@,
                            x,
                            y,
                        ) == Some(t) {
                        let (x, y) = choose|x: int, y: int|
                            0 <= x < i + 1 && 0 <= y < self@[x].len() && #[trigger] abstraction_at(
                                self@,
                                x,
                                y,
                            ) == Some(t);
                        assert((0 <= x < i && 0 <= y < self@[x].len() || x == i && 0 <= y < j)
                            && abstraction_at(self@, x, y) == Some(t));
                    }
                }
            }
            i += 1;
        }
        result
    }

    /// Adds to `found` what comes from this table by abstractions. A table
    /// that `found` holds is not gone through again: everything that comes
    /// from it is there, or will be once the tables that are being gone
    /// through, all heavier than this one, are done.
    pub(crate) fn collect(&self, found: &mut Vec<Table<'a>>)
        requires
            rectangular(self@),
            distinct_tables(old(found)@),
            forall|t: Seq<Seq<SlotModel>>| #[trigger]
                as_tables(old(found)@).contains(t) ==> complete(t, as_tables(old(found)@))
                    || weight(t) > weight(self@),
        ensures
            distinct_tables(final(found)@),
            forall|t: Seq<Seq<SlotModel>>| #[trigger]
                as_tables(final(found)@).contains(t) <==> as_tables(old(found)@).contains(t)
                    || derives(self@, t),
            forall|t: Seq<Seq<SlotModel>>| #[trigger]
                as_tables(final(found)@).contains(t) ==> complete(t, as_tables(final(found)@))
                    || (as_tables(old(found)@).contains(t) && weight(t) > weight(self@)),
        decreases weight(self@),
    {
        if self.held_in(found) {
            proof {
                assert(complete(self@, as_tables(found@)));
            }
            return ;
        }
        let ghost start = found@;
        found.push(self.clone());
        let next = self.immediate_abstractions();
        proof {
            assert forall|t: Seq<Seq<SlotModel>>|
                as_tables(found@).contains(t) <==> as_tables(start).contains(t) || t == self@ by {
                if as_tables(found@).contains(t) {
                    let k = choose|k: int| 0 <= k < found@.len() && (#[trigger] found@[k])@ == t;
                    if k < start.len() {
                        assert(start[k]@ == t);
                    }
                }
                if as_tables(start).contains(t) {
                    let k = choose|k: int| 0 <= k < start.len() && (#[trigger] start[k])@ == t;
                    assert(found@[k]@ == t);
                }
                if t == self@ {
                    assert(found@[start.len() as int]@ == t);
                }
            }
            assert forall|a: int, b: int| 0 <= a < b < found@.len() implies found@[a]@
                != found@[b]@ by {
                if b == start.len() {
                    assert(start[a] == found@[a]);
                    assert(as_tables(start).contains(start[a]@));
                }
            }
            assert forall|t: Seq<Seq<SlotModel>>| #[trigger]
                as_tables(found@).contains(t) implies complete(t, as_tables(found@)) || (as_tables(
                start,
            ).contains(t) && weight(t) > weight(self@)) || t == self@ by {
                if as_tables(start).contains(t) && complete(t, as_tables(start)) {
                    assert forall|x: Seq<Seq<SlotModel>>| #[trigger] derives(t, x) implies as_tables(
                        found@,
                    ).contains(x) by {
                        assert(as_tables(start).contains(x));
                    }
                }
            }
        }
        let mut k: usize = 0;
        while k < next.len()
            invariant
                k <= next.len(),
                rectangular(self@),
                distinct_tables(found@),
                forall|t: Seq<Seq<SlotModel>>| #[trigger]
                    as_tables(next@).contains(t) <==> is_abstraction_of(t, self@),
                forall|t: Seq<Seq<SlotModel>>| #[trigger]
                    as_tables(found@).contains(t) <==> as_tables(start).contains(t) || t == self@
                        || exists|c: int| 0 <= c < k && derives((#[trigger] next@[c])@, t),
                forall|t: Seq<Seq<SlotModel>>| #[trigger]
                    as_tables(found@).contains(t) ==> complete(t, as_tables(found@)) || (as_tables(
                        start,
                    ).contains(t) && weight(t) > weight(self@)) || t == self@,
            decreases next.len() - k,
        {
            let ghost before = found@;
            let child = &next[k];
            proof {
                assert(as_tables(next@).contains(child@));
                lemma_abstraction_step(self@, child@);
            }
            child.collect(found);
            proof {
                assert forall|t: Seq<Seq<SlotModel>>| #[trigger]
                    as_tables(found@).contains(t) <==> as_tables(start).contains(t) || t == self@
                        || exists|c: int| 0 <= c < k + 1 && derives((#[trigger] next@[c])@, t) by {
                    assert(as_tables(found@).contains(t) <==> as_tables(before).contains(t)
                        || derives(child@, t));
                    if exists|c: int| 0 <= c < k && derives((#[trigger] next@[c])@, t) {
                        let c = choose|c: int| 0 <= c < k && derives((#[trigger] next@[c])@, t);
                        assert(0 <= c < k + 1 && derives(next@[c]@, t));
                    }
                    if derives(child@, t) {
                        assert(0 <= k < k + 1 && derives(next@[k as int]@, t));
                    }
                    if exists|c: int| 0 <= c < k + 1 && derives((#[trigger] next@[c])@, t) {
                        let c = choose|c: int| 0 <= c < k + 1 && derives((#[trigger] next@[c])@, t);
                        if c < k {
                            assert(0 <= c < k && derives(next@[c]@, t));
                        }
                    }
                }
                assert forall|t: Seq<Seq<SlotModel>>| #[trigger]
                    as_tables(found@).contains(t) implies complete(t, as_tables(found@)) || (
                as_tables(start).contains(t) && weight(t) > weight(self@)) || t == self@ by {
                    if !complete(t, as_tables(found@)) {
                        assert(as_tables(before).contains(t));
                        if complete(t, as_tables(before)) {
                            assert forall|x: Seq<Seq<SlotModel>>| #[trigger]
                                derives(t, x) implies as_tables(found@).contains(x) by {
                                assert(as_tables(before).contains(x));
                            }
                        }
                    }
                }
            }
            k += 1;
        }
        proof {
            assert(complete(self@, as_tables(found@))) by {
                assert forall|x: Seq<Seq<SlotModel>>| #[trigger] derives(self@, x) implies as_tables(
                    found@,
                ).contains(x) by {
                    lemma_derives_unfold(self@, x);
                    if x != self@ {
                        let mid = choose|mid: Seq<Seq<SlotModel>>| #[trigger]
                            is_abstraction_of(mid, self@) && derives(mid, x);
                        assert(as_tables(next@).contains(mid));
                        let c = choose|c: int| 0 <= c < next@.len() && (#[trigger] next@[c])@ == mid;
                        assert(0 <= c < k && derives(next@[c]@, x));
                    }
                }
            }
            assert forall|t: Seq<Seq<SlotModel>>| #[trigger]
                as_tables(found@).contains(t) <==> as_tables(start).contains(t) || derives(
                    self@,
                    t,
                ) by {
                lemma_derives_unfold(self@, t);
                if exists|c: int| 0 <= c < k && derives((#[trigger] next@[c])@, t) {
                    let c = choose|c: int| 0 <= c < k && derives((#[trigger] next@[c])@, t);
                    assert(as_tables(next@).contains(next@[c]@));
                    assert(is_abstraction_of(next@[c]@, self@) && derives(next@[c]@, t));
                }
            }
        }
    }
}

} // verus!
