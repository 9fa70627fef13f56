use crate::notation::chars_of;
use vstd::prelude::*;

verus! {

/// What a slot holds, as a mathematical value: the name of its element, or
/// nothing for a gap, and its two alignment marks.
pub struct SlotModel {
    pub element: Option<Seq<char>>,
    pub left_aligned: bool,
    pub right_aligned: bool,
}

/// Whether two pieces of text hold the same characters.
pub fn same_text(a: &str, b: &str) -> (same: bool)
    ensures
        same == (a@ == b@),
{
    let x = chars_of(a);
    let y = chars_of(b);
    if x.len() != y.len() {
        return false;
    }
    let mut i: usize = 0;
    while i < x.len()
        invariant
            i <= x.len(),
            x.len() == y.len(),
            x@ == a@,
            y@ == b@,
            forall|k: int| 0 <= k < i ==> x@[k] == y@[k],
        decreases x.len() - i,
    {
        if x[i] != y[i] {
            return false;
        }
        i += 1;
    }
    assert(x@ =~= y@);
    true
}

/// What stands in a slot: an element with a name, or nothing.
#[derive(PartialEq, Eq, Hash, Clone, Copy, PartialOrd, Ord, Debug)]
pub enum Element<'a> {
    Null,
    Element(&'a str),
}

impl<'a> Element<'a> {
    /// The name of the element, or `None` for no element.
    pub open spec fn view(&self) -> Option<Seq<char>> {
        match self {
            Element::Null => None,
            Element::Element(name) => Some(name@),
        }
    }

    /// Whether two elements are the same: both nothing, or of one name.
    pub fn same(&self, other: &Element<'a>) -> (b: bool)
        ensures
            b == (self@ == other@),
    {
        match (self, other) {
            (Element::Null, Element::Null) => true,
            (Element::Element(x), Element::Element(y)) => same_text(x, y),
            _ => false,
        }
    }
}

/// One cell of a tier. A slot that is aligned on a side has a boundary there
/// that the other tiers share.
#[derive(PartialEq, Eq, Hash, Clone, Copy, PartialOrd, Ord, Debug)]
pub struct Slot<'a> {
    element: Element<'a>,
    left_aligned: bool,
    right_aligned: bool,
}

impl<'a> Slot<'a> {
    /// The slot as a mathematical value.
    pub closed spec fn view(&self) -> SlotModel {
        SlotModel {
            element: self.element@,
            left_aligned: self.left_aligned,
            right_aligned: self.right_aligned,
        }
    }

    /// A slot that holds `element` and is aligned on neither side.
    pub fn new(element: Element<'a>) -> (slot: Self)
        ensures
            slot@ == (SlotModel { element: element@, left_aligned: false, right_aligned: false }),
    {
        Slot { element: element, left_aligned: false, right_aligned: false }
    }

    /// Whether the slot holds the element named `el`.
    pub fn equal_element(&self, el: &'a str) -> (b: bool)
        ensures
            b == (self@.element == Some(el@)),
    {
        match self.element {
            Element::Element(some_el) => same_text(el, some_el),
            _ => false,
        }
    }

    /// Puts the element named `el` into the slot.
    pub fn set_element(&mut self, el: &'a str)
        ensures
            final(self)@ == (SlotModel { element: Some(el@), ..old(self)@ }),
    {
        self.element = Element::Element(el);
    }

    /// What stands in the slot.
    pub fn element(&self) -> (e: Element<'a>)
        ensures
            e@ == self@.element,
    {
        self.element
    }

    /// Whether the slot holds nothing.
    pub fn is_gap(&self) -> (b: bool)
        ensures
            b == (self@.element is None),
    {
        match self.element {
            Element::Null => true,
            _ => false,
        }
    }

    /// Empties the slot.
    pub fn set_gap(&mut self)
        ensures
            final(self)@ == (SlotModel { element: None, ..old(self)@ }),
    {
        self.element = Element::Null;
    }

    /// Whether the slot is aligned on its left.
    pub fn is_left_aligned(&self) -> (b: bool)
        ensures
            b == self@.left_aligned,
    {
        self.left_aligned
    }

    /// Whether the slot is aligned on its right.
    pub fn is_right_aligned(&self) -> (b: bool)
        ensures
            b == self@.right_aligned,
    {
        self.right_aligned
    }

    /// Sets the alignment mark of the left side.
    pub fn set_left_aligned(&mut self, aligned: bool)
        ensures
            final(self)@ == (SlotModel { left_aligned: aligned, ..old(self)@ }),
    {
        self.left_aligned = aligned;
    }

    /// Sets the alignment mark of the right side.
    pub fn set_right_aligned(&mut self, aligned: bool)
        ensures
            final(self)@ == (SlotModel { right_aligned: aligned, ..old(self)@ }),
    {
        self.right_aligned = aligned;
    }

    /// Whether two slots hold the same element and have the same marks.
    pub fn same(&self, other: &Slot<'a>) -> (b: bool)
        ensures
            b == (self@ == other@),
    {
        self.element.same(&other.element) && self.left_aligned == other.left_aligned
            && self.right_aligned == other.right_aligned
    }
}

/// A tier: a row of slots.
#[derive(PartialEq, Eq, Hash, PartialOrd, Ord, Debug)]
pub struct Tier<'a> {
    pub slots: Vec<Slot<'a>>,
}

impl<'a> Tier<'a> {
    /// The tier as a mathematical value: its slots in order.
    pub open spec fn view(&self) -> Seq<SlotModel> {
        Seq::new(self.slots@.len(), |i: int| self.slots@[i]@)
    }

    /// The slots of this tier followed by those of `other`.
    pub fn concatenate(&self, other: &Self) -> (tier: Self)
        ensures
            tier@ == self@ + other@,
    {
        let mut slots: Vec<Slot<'a>> = Vec::new();
        let mut i: usize = 0;
        while i < self.slots.len()
            invariant
                i <= self.slots.len(),
                slots@.len() == i,
                forall|k: int| 0 <= k < i ==> (#[trigger] slots@[k])@ == self@[k],
            decreases self.slots.len() - i,
        {
            slots.push(self.slots[i]);
            i += 1;
        }
        let mut j: usize = 0;
        while j < other.slots.len()
            invariant
                j <= other.slots.len(),
                slots@.len() == self.slots.len() + j,
                forall|k: int| 0 <= k < self.slots.len() ==> (#[trigger] slots@[k])@ == self@[k],
                forall|k: int|
                    self.slots.len() <= k < slots@.len() ==> (#[trigger] slots@[k])@ == other@[k
                        - self.slots.len()],
            decreases other.slots.len() - j,
        {
            slots.push(other.slots[j]);
            j += 1;
        }
        let tier = Tier { slots };
        assert(tier@ =~= self@ + other@);
        tier
    }

    /// The tier with `slot` in the place `index`.
    pub fn with_slot(&self, index: usize, slot: Slot<'a>) -> (tier: Self)
        requires
            index < self@.len(),
        ensures
            tier@ == self@.update(index as int, slot@),
    {
        let mut slots: Vec<Slot<'a>> = Vec::new();
        let mut i: usize = 0;
        while i < self.slots.len()
            invariant
                i <= self.slots.len(),
                index < self.slots.len(),
                slots@.len() == i,
                forall|k: int|
                    0 <= k < i ==> (#[trigger] slots@[k])@ == self@.update(index as int, slot@)[k],
            decreases self.slots.len() - i,
        {
            if i == index {
                slots.push(slot);
            } else {
                slots.push(self.slots[i]);
            }
            i += 1;
        }
        let tier = Tier { slots };
        assert(tier@ =~= self@.update(index as int, slot@));
        tier
    }

    /// The tier without the slot in the place `index`.
    pub fn without_slot(&self, index: usize) -> (tier: Self)
        requires
            index < self@.len(),
        ensures
            tier@ == self@.remove(index as int),
    {
        let mut slots: Vec<Slot<'a>> = Vec::new();
        let mut i: usize = 0;
        while i < self.slots.len()
            invariant
                i <= self.slots.len(),
                index < self.slots.len(),
                slots@.len() == if i <= index {
                    i as int
                } else {
                    i - 1
                },
                forall|k: int|
                    0 <= k < slots@.len() ==> (#[trigger] slots@[k])@ == self@.remove(
                        index as int,
                    )[k],
            decreases self.slots.len() - i,
        {
            if i != index {
                slots.push(self.slots[i]);
            }
            i += 1;
        }
        let tier = Tier { slots };
        assert(tier@ =~= self@.remove(index as int));
        tier
    }

    /// Whether two tiers hold the same slots in the same order.
    pub fn same(&self, other: &Tier<'a>) -> (b: bool)
        ensures
            b == (self@ == other@),
    {
        if self.slots.len() != other.slots.len() {
            assert(self@.len() != other@.len());
            return false;
        }
        let mut i: usize = 0;
        while i < self.slots.len()
            invariant
                i <= self.slots.len(),
                self.slots.len() == other.slots.len(),
                forall|k: int| 0 <= k < i ==> self@[k] == other@[k],
            decreases self.slots.len() - i,
        {
            if !self.slots[i].same(&other.slots[i]) {
                assert(self@[i as int] != other@[i as int]);
                return false;
            }
            i += 1;
        }
        assert(self@ =~= other@);
        true
    }
}

impl<'a> Clone for Tier<'a> {
    /// A copy of the tier.
    fn clone(&self) -> (tier: Self)
        ensures
            tier@ == self@,
    {
        let nothing: Tier<'a> = Tier { slots: Vec::new() };
        assert(nothing@ =~= Seq::empty());
        let tier = self.concatenate(&nothing);
        assert(tier@ =~= self@);
        tier
    }
}

/// A table: tiers one below the other. In a table that is meant as one, all
/// tiers have the same number of slots, so that the slots in one place form
/// a column.
#[derive(PartialEq, Eq, Hash, PartialOrd, Ord, Debug)]
pub struct Table<'a> {
    pub tiers: Vec<Tier<'a>>,
}

/// A table without the column `col`.
pub open spec fn without_column(t: Seq<Seq<SlotModel>>, col: int) -> Seq<Seq<SlotModel>> {
    Seq::new(t.len(), |i: int| t[i].remove(col))
}

/// A table with `slot` in the place `col` of the tier `tier`.
pub open spec fn with_cell(t: Seq<Seq<SlotModel>>, tier: int, col: int, slot: SlotModel) -> Seq<
    Seq<SlotModel>,
> {
    t.update(tier, t[tier].update(col, slot))
}

/// Whether every tier of a table has the column `col`.
pub open spec fn has_column(t: Seq<Seq<SlotModel>>, col: int) -> bool {
    forall|i: int| 0 <= i < t.len() ==> 0 <= col < (#[trigger] t[i]).len()
}

/// Whether some tier of a table has a slot in the column `col` that is
/// aligned on its right.
pub open spec fn bounded_on_right(t: Seq<Seq<SlotModel>>, col: int) -> bool {
    exists|i: int| 0 <= i < t.len() && (#[trigger] t[i])[col].right_aligned
}

/// A table in which the cell at `col` of `tier` is merged with the cell to
/// its right: the boundary between the two is taken from the tier, and where
/// no other tier has a boundary there, the column goes.
pub open spec fn merged_with_next(t: Seq<Seq<SlotModel>>, tier: int, col: int) -> Seq<
    Seq<SlotModel>,
> {
    let left = SlotModel { right_aligned: false, ..t[tier][col] };
    let right = SlotModel { left_aligned: false, ..t[tier][col + 1] };
    let cut = with_cell(with_cell(t, tier, col, left), tier, col + 1, right);
    if bounded_on_right(cut, col) {
        cut
    } else {
        without_column(cut, col)
    }
}

/// The abstraction of a table at the cell at `col` of `tier`, if there is
/// one: a cell that holds an element loses it; a gap that is aligned on its
/// right and has a gap after it is merged with that gap; any other gap gives
/// nothing.
pub open spec fn abstraction_at(t: Seq<Seq<SlotModel>>, tier: int, col: int) -> Option<
    Seq<Seq<SlotModel>>,
> {
    let slot = t[tier][col];
    if slot.element is None {
        if slot.right_aligned && col < t[tier].len() - 1 && t[tier][col + 1].element is None {
            Some(merged_with_next(t, tier, col))
        } else {
            None
        }
    } else {
        Some(with_cell(t, tier, col, SlotModel { element: None, ..slot }))
    }
}

impl<'a> Table<'a> {
    /// The table as a mathematical value: its tiers in order.
    pub open spec fn view(&self) -> Seq<Seq<SlotModel>> {
        Seq::new(self.tiers@.len(), |i: int| self.tiers@[i]@)
    }

    /// Whether the columns `col1` and `col2` hold the same slot in every
    /// tier.
    pub fn same_column(&self, col1: usize, col2: usize) -> (b: bool)
        requires
            has_column(self@, col1 as int),
            has_column(self@, col2 as int),
        ensures
            b == forall|i: int|
                0 <= i < self@.len() ==> (#[trigger] self@[i])[col1 as int] == self@[i][col2 as int],
    {
        let mut i: usize = 0;
        while i < self.tiers.len()
            invariant
                i <= self.tiers.len(),
                has_column(self@, col1 as int),
                has_column(self@, col2 as int),
                forall|k: int|
                    0 <= k < i ==> (#[trigger] self@[k])[col1 as int] == self@[k][col2 as int],
            decreases self.tiers.len() - i,
        {
            assert(self@[i as int].len() == self.tiers@[i as int].slots@.len());
            if !self.tiers[i].slots[col1].same(&self.tiers[i].slots[col2]) {
                assert(self@[i as int][col1 as int] != self@[i as int][col2 as int]);
                return false;
            }
            i += 1;
        }
        true
    }

    /// Takes the column `slot_index` out of every tier.
    pub fn eliminate_column(&mut self, slot_index: usize)
        requires
            has_column(old(self)@, slot_index as int),
        ensures
            final(self)@ == without_column(old(self)@, slot_index as int),
    {
        let mut tiers: Vec<Tier<'a>> = Vec::new();
        let mut i: usize = 0;
        while i < self.tiers.len()
            invariant
                i <= self.tiers.len(),
                has_column(self@, slot_index as int),
                tiers@.len() == i,
                forall|k: int|
                    0 <= k < i ==> (#[trigger] tiers@[k])@ == self@[k].remove(slot_index as int),
            decreases self.tiers.len() - i,
        {
            assert(self@[i as int].len() == self.tiers@[i as int]@.len());
            tiers.push(self.tiers[i].without_slot(slot_index));
            i += 1;
        }
        self.tiers = tiers;
        assert(self@ =~= without_column(old(self)@, slot_index as int));
    }

    /// The table with `slot` in the place `slot_index` of the tier
    /// `tier_index`.
    pub fn with_slot(&self, tier_index: usize, slot_index: usize, slot: Slot<'a>) -> (table: Self)
        requires
            tier_index < self@.len(),
            slot_index < self@[tier_index as int].len(),
        ensures
            table@ == with_cell(self@, tier_index as int, slot_index as int, slot@),
    {
        let mut tiers: Vec<Tier<'a>> = Vec::new();
        let mut i: usize = 0;
        while i < self.tiers.len()
            invariant
                i <= self.tiers.len(),
                tier_index < self@.len(),
                slot_index < self@[tier_index as int].len(),
                tiers@.len() == i,
                forall|k: int|
                    0 <= k < i ==> (#[trigger] tiers@[k])@ == with_cell(
                        self@,
                        tier_index as int,
                        slot_index as int,
                        slot@,
                    )[k],
            decreases self.tiers.len() - i,
        {
            assert(self@[i as int] == self.tiers@[i as int]@);
            if i == tier_index {
                tiers.push(self.tiers[i].with_slot(slot_index, slot));
            } else {
                tiers.push(self.tiers[i].clone());
            }
            i += 1;
        }
        let table = Table { tiers };
        assert(table@ =~= with_cell(self@, tier_index as int, slot_index as int, slot@));
        table
    }

    /// The table with the cell at `slot_index` of `tier_index` merged with
    /// the cell to its right: see [`merged_with_next`].
    pub fn merge_cell_with_next(&self, tier_index: usize, slot_index: usize) -> (table: Self)
        requires
            tier_index < self@.len(),
            slot_index + 1 < self@[tier_index as int].len(),
            has_column(self@, slot_index as int),
        ensures
            table@ == merged_with_next(self@, tier_index as int, slot_index as int),
    {
        assert(self@[tier_index as int] == self.tiers@[tier_index as int]@);
        let width = self.tiers[tier_index].slots.len();
        assert(self@[tier_index as int].len() == width);
        let mut left = self.tiers[tier_index].slots[slot_index];
        left.set_right_aligned(false);
        let mut right = self.tiers[tier_index].slots[slot_index + 1];
        right.set_left_aligned(false);
        let first = self.with_slot(tier_index, slot_index, left);
        let mut copy = first.with_slot(tier_index, slot_index + 1, right);
        let mut found = false;
        let mut i: usize = 0;
        while i < copy.tiers.len()
            invariant
                i <= copy.tiers.len(),
                has_column(copy@, slot_index as int),
                found == exists|k: int| 0 <= k < i && (#[trigger] copy@[k])[slot_index as int].right_aligned,
            decreases copy.tiers.len() - i,
        {
            assert(copy@[i as int] == copy.tiers@[i as int]@);
            assert(copy@[i as int].len() == copy.tiers@[i as int].slots@.len());
            if copy.tiers[i].slots[slot_index].is_right_aligned() {
                found = true;
            }
            i += 1;
        }
        if !found {
            copy.eliminate_column(slot_index);
        }
        copy
    }

    /// The table with the cell at `slot_index` of `tier_index` emptied.
    pub fn null_element(&self, tier_index: usize, slot_index: usize) -> (table: Self)
        requires
            tier_index < self@.len(),
            slot_index < self@[tier_index as int].len(),
        ensures
            table@ == with_cell(
                self@,
                tier_index as int,
                slot_index as int,
                SlotModel { element: None, ..self@[tier_index as int][slot_index as int] },
            ),
    {
        assert(self@[tier_index as int] == self.tiers@[tier_index as int]@);
        let mut slot = self.tiers[tier_index].slots[slot_index];
        slot.set_gap();
        self.with_slot(tier_index, slot_index, slot)
    }

    /// The abstraction of the table at one cell: see [`abstraction_at`].
    pub fn abstract_element(&self, tier_index: usize, slot_index: usize) -> (table: Option<Self>)
        requires
            tier_index < self@.len(),
            slot_index < self@[tier_index as int].len(),
            has_column(self@, slot_index as int),
        ensures
            match table {
                Some(t) => abstraction_at(self@, tier_index as int, slot_index as int) == Some(t@),
                None => abstraction_at(self@, tier_index as int, slot_index as int) is None,
            },
    {
        assert(self@[tier_index as int] == self.tiers@[tier_index as int]@);
        let tier = &self.tiers[tier_index];
        let slot = &tier.slots[slot_index];
        if slot.is_gap() {
            if slot.is_right_aligned() && slot_index < tier.slots.len() - 1
                && tier.slots[slot_index + 1].is_gap() {
                Some(self.merge_cell_with_next(tier_index, slot_index))
            } else {
                None
            }
        } else {
            Some(self.null_element(tier_index, slot_index))
        }
    }
}

} // verus!
