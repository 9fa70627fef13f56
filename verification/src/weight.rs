use crate::table::abstraction_at;
use crate::table::bounded_on_right;
use crate::table::has_column;
use crate::table::merged_with_next;
use crate::table::with_cell;
use crate::table::without_column;
use crate::table::SlotModel;
use vstd::prelude::*;

verus! {

/// The sum of the weights of the items of a list.
pub open spec fn total<A>(s: Seq<A>, w: spec_fn(A) -> nat) -> nat
    decreases s.len(),
{
    if s.len() == 0 {
        0
    } else {
        total(s.drop_last(), w) + w(s.last())
    }
}

/// What a slot weighs: one for an element, one for a boundary on the right.
pub open spec fn slot_weight(s: SlotModel) -> nat {
    (if s.element is Some {
        1nat
    } else {
        0nat
    }) + (if s.right_aligned {
        1nat
    } else {
        0nat
    })
}

/// What a tier weighs: the sum over its slots.
pub open spec fn tier_weight(tier: Seq<SlotModel>) -> nat {
    total(tier, |s: SlotModel| slot_weight(s))
}

/// What a table weighs: the sum over its tiers. Every abstraction of a table
/// weighs less than the table.
pub open spec fn weight(t: Seq<Seq<SlotModel>>) -> nat {
    total(t, |tier: Seq<SlotModel>| tier_weight(tier))
}

/// A list with one item replaced weighs what it weighed, less the old item,
/// more the new.
pub proof fn lemma_total_update<A>(s: Seq<A>, w: spec_fn(A) -> nat, j: int, x: A)
    requires
        0 <= j < s.len(),
    ensures
        total(s.update(j, x), w) + w(s[j]) == total(s, w) + w(x),
    decreases s.len(),
{
    if j == s.len() - 1 {
        assert(s.update(j, x).drop_last() =~= s.drop_last());
    } else {
        lemma_total_update(s.drop_last(), w, j, x);
        assert(s.update(j, x).drop_last() =~= s.drop_last().update(j, x));
    }
}

/// A list with one item taken out weighs what it weighed, less the item.
pub proof fn lemma_total_remove<A>(s: Seq<A>, w: spec_fn(A) -> nat, j: int)
    requires
        0 <= j < s.len(),
    ensures
        total(s.remove(j), w) + w(s[j]) == total(s, w),
    decreases s.len(),
{
    if j == s.len() - 1 {
        assert(s.remove(j) =~= s.drop_last());
    } else {
        lemma_total_remove(s.drop_last(), w, j);
        assert(s.remove(j).drop_last() =~= s.drop_last().remove(j));
        assert(s.remove(j).last() == s.last());
    }
}

/// Of two lists of one length, that whose items weigh no more place by place
/// weighs no more.
pub proof fn lemma_total_le<A>(x: Seq<A>, y: Seq<A>, w: spec_fn(A) -> nat)
    requires
        x.len() == y.len(),
        forall|i: int| 0 <= i < x.len() ==> w(#[trigger] x[i]) <= w(y[i]),
    ensures
        total(x, w) <= total(y, w),
    decreases x.len(),
{
    if x.len() > 0 {
        assert forall|i: int| 0 <= i < x.drop_last().len() implies w(#[trigger] x.drop_last()[i])
            <= w(y.drop_last()[i]) by {
            assert(x.drop_last()[i] == x[i]);
            assert(y.drop_last()[i] == y[i]);
        }
        lemma_total_le(x.drop_last(), y.drop_last(), w);
        assert(w(x[x.len() - 1]) <= w(y[x.len() - 1]));
    }
}

/// A table with one cell replaced weighs what it weighed, less the old cell,
/// more the new.
pub proof fn lemma_weight_with_cell(t: Seq<Seq<SlotModel>>, tier: int, col: int, slot: SlotModel)
    requires
        0 <= tier < t.len(),
        0 <= col < t[tier].len(),
    ensures
        weight(with_cell(t, tier, col, slot)) + slot_weight(t[tier][col]) == weight(t)
            + slot_weight(slot),
{
    let ws = |s: SlotModel| slot_weight(s);
    let wt = |tier: Seq<SlotModel>| tier_weight(tier);
    lemma_total_update(t[tier], ws, col, slot);
    lemma_total_update(t, wt, tier, t[tier].update(col, slot));
}

/// A table without one of its columns weighs no more than with it.
pub proof fn lemma_weight_without_column(t: Seq<Seq<SlotModel>>, col: int)
    requires
        has_column(t, col),
    ensures
        weight(without_column(t, col)) <= weight(t),
{
    let ws = |s: SlotModel| slot_weight(s);
    let wt = |tier: Seq<SlotModel>| tier_weight(tier);
    let cut = without_column(t, col);
    assert(cut.len() == t.len());
    assert forall|i: int| 0 <= i < cut.len() implies wt(#[trigger] cut[i]) <= wt(t[i]) by {
        let row = t[i];
        assert(0 <= col < row.len());
        assert(cut[i] == row.remove(col));
        lemma_total_remove(t[i], ws, col);
    }
    lemma_total_le(cut, t, wt);
}

/// An abstraction of a table weighs less than the table.
pub proof fn lemma_abstraction_lighter(t: Seq<Seq<SlotModel>>, tier: int, col: int)
    requires
        0 <= tier < t.len(),
        0 <= col < t[tier].len(),
        has_column(t, col),
        abstraction_at(t, tier, col) is Some,
    ensures
        weight(abstraction_at(t, tier, col).unwrap()) < weight(t),
{
    let slot = t[tier][col];
    if slot.element is None {
        let left = SlotModel { right_aligned: false, ..t[tier][col] };
        let right = SlotModel { left_aligned: false, ..t[tier][col + 1] };
        let first = with_cell(t, tier, col, left);
        let cut = with_cell(first, tier, col + 1, right);
        lemma_weight_with_cell(t, tier, col, left);
        lemma_weight_with_cell(first, tier, col + 1, right);
        assert(first[tier][col + 1] == t[tier][col + 1]);
        if !bounded_on_right(cut, col) {
            assert forall|i: int| 0 <= i < cut.len() implies 0 <= col < (#[trigger] cut[i]).len() by {
                assert(0 <= col < t[i].len());
            }
            lemma_weight_without_column(cut, col);
        }
    } else {
        lemma_weight_with_cell(t, tier, col, SlotModel { element: None, ..slot });
    }
}

} // verus!
