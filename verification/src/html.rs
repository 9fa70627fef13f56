use crate::render::decimal;
use crate::render::decimal_text;
use crate::table::Element;
use crate::table::Slot;
use crate::table::SlotModel;
use crate::table::Table;
use vstd::prelude::*;
use vstd::string::StringExecFns;

verus! {

/// What a table in HTML starts with: the style of its cells, and the start
/// tag.
pub open spec fn html_head() -> Seq<char> {
    "\n<style type=\"text/css\">\n  table, th, td \n  {\n    border-left: 1px solid black;\n    border-right: 1px solid black;\n    border-collapse: collapse;\n    text-align: center;\n    padding: 1ex;\n  }\n</style>\n<table>"@
}

/// An element as text: its name, or a blank that does not break for no
/// element.
pub open spec fn element_text(e: Option<Seq<char>>) -> Seq<char> {
    match e {
        Some(name) => name,
        None => "&nbsp;"@,
    }
}

/// A cell that spans `span` columns and holds `e`.
pub open spec fn cell_html(span: nat, e: Option<Seq<char>>) -> Seq<char> {
    "\n    <td colspan="@ + decimal(span) + ">"@ + element_text(e) + "</td>"@
}

/// The cells of a tier from the slot `j` on, when `span` columns are open: a
/// slot that is aligned on its right closes a cell, which holds the element of
/// that slot; any other slot makes the open cell one column wider. Slots
/// after the last slot that is aligned on its right give no cell.
pub open spec fn cells_from(tier: Seq<SlotModel>, j: int, span: nat) -> Seq<char>
    decreases tier.len() - j,
{
    if j < 0 || j >= tier.len() {
        Seq::empty()
    } else if tier[j].right_aligned {
        cell_html(span, tier[j].element) + cells_from(tier, j + 1, 1)
    } else {
        cells_from(tier, j + 1, span + 1)
    }
}

/// A tier as a row.
pub open spec fn row_html(tier: Seq<SlotModel>) -> Seq<char> {
    "\n  <tr>"@ + cells_from(tier, 0, 1) + "\n  </tr>"@
}

/// The rows of the tiers from `i` on.
pub open spec fn rows_from(t: Seq<Seq<SlotModel>>, i: int) -> Seq<char>
    decreases t.len() - i,
{
    if i < 0 || i >= t.len() {
        Seq::empty()
    } else {
        row_html(t[i]) + rows_from(t, i + 1)
    }
}

/// A table in HTML.
pub open spec fn table_html(t: Seq<Seq<SlotModel>>) -> Seq<char> {
    html_head() + rows_from(t, 0) + "\n</table>\n"@
}

impl<'a> Element<'a> {
    /// The element as text: see [`element_text`].
    pub fn text(&self) -> (s: &'a str)
        ensures
            s@ == element_text(self@),
    {
        match self {
            Element::Element(name) => name,
            Element::Null => "&nbsp;",
        }
    }
}

impl<'a> Slot<'a> {
    /// The element of the slot as text.
    pub fn element_text(&self) -> (s: &'a str)
        ensures
            s@ == element_text(self@.element),
    {
        self.element().text()
    }
}

impl<'a> Table<'a> {
    /// The table in HTML: see [`table_html`]. No tier may have as many slots
    /// as a column count can hold.
    pub fn to_html(&self) -> (text: String)
        requires
            forall|i: int| 0 <= i < self@.len() ==> (#[trigger] self@[i]).len() < i32::MAX,
        ensures
            text@ == table_html(self@),
    {
        let mut text = String::from_str(
            "\n<style type=\"text/css\">\n  table, th, td \n  {\n    border-left: 1px solid black;\n    border-right: 1px solid black;\n    border-collapse: collapse;\n    text-align: center;\n    padding: 1ex;\n  }\n</style>\n<table>",
        );
        let ghost all = self@;
        let mut i: usize = 0;
        proof {
            assert(text@ + rows_from(all, 0) =~= html_head() + rows_from(all, 0));
        }
        while i < self.tiers.len()
            invariant
                i <= self.tiers.len(),
                all == self@,
                forall|k: int| 0 <= k < all.len() ==> (#[trigger] all[k]).len() < i32::MAX,
                text@ + rows_from(all, i as int) == html_head() + rows_from(all, 0),
            decreases self.tiers.len() - i,
        {
            let tier = &self.tiers[i];
            let ghost row = all[i as int];
            let ghost before = text@;
            assert(row == tier@);
            text.append("\n  <tr>");
            let ghost opened = text@;
            let mut colspan: u32 = 1;
            let mut j: usize = 0;
            proof {
                assert(row.len() < i32::MAX);
            }
            while j < tier.slots.len()
                invariant
                    j <= tier.slots.len(),
                    row == tier@,
                    row.len() == tier.slots.len(),
                    row.len() < i32::MAX,
                    1 <= colspan <= j + 1,
                    text@ + cells_from(row, j as int, colspan as nat) == opened + cells_from(
                        row,
                        0,
                        1,
                    ),
                decreases tier.slots.len() - j,
            {
                let slot = &tier.slots[j];
                let ghost written = text@;
                let ghost rest = cells_from(row, j + 1, 1);
                assert(row[j as int] == slot@);
                if slot.is_right_aligned() {
                    let number = decimal_text(colspan);
                    text.append("\n    <td colspan=");
                    text.append(number.as_str());
                    text.append(">");
                    text.append(slot.element_text());
                    text.append("</td>");
                    proof {
                        assert(text@ =~= written + cell_html(colspan as nat, slot@.element));
                        assert(text@ + rest =~= written + (cell_html(
                            colspan as nat,
                            slot@.element,
                        ) + rest));
                    }
                    colspan = 1;
                } else {
                    colspan += 1;
                }
                j += 1;
            }
            text.append("\n  </tr>");
            proof {
                let cells = cells_from(row, 0, 1);
                let tail = rows_from(all, i + 1);
                assert(cells_from(row, j as int, colspan as nat) =~= Seq::empty());
                assert(text@ =~= before + row_html(row));
                assert(text@ + tail =~= before + (row_html(row) + tail));
            }
            i += 1;
        }
        text.append("\n</table>\n");
        proof {
            assert(rows_from(all, i as int) =~= Seq::empty());
            assert(text@ =~= html_head() + rows_from(all, 0) + "\n</table>\n"@);
        }
        text
    }
}

} // verus!
