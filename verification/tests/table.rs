use autoseg::table::Element;
use autoseg::table::Slot;
use autoseg::table::Table;
use autoseg::table::Tier;
use autoseg::tabular::Tabular;

fn slot(name: &'static str, left: bool, right: bool) -> Slot<'static> {
    let mut s = Slot::new(if name == "_" { Element::Null } else { Element::Element(name) });
    s.set_left_aligned(left);
    s.set_right_aligned(right);
    s
}

fn tier(slots: Vec<Slot<'static>>) -> Tier<'static> {
    Tier { slots }
}

/// Two tiers, two columns: "a b" over a gap that spans both.
fn sample() -> Table<'static> {
    Table {
        tiers: vec![
            tier(vec![slot("a", true, true), slot("b", true, true)]),
            tier(vec![slot("_", true, false), slot("_", false, true)]),
        ],
    }
}

#[test]
fn new_slot_is_unaligned() {
    let s = Slot::new(Element::Element("a"));
    assert!(!s.is_left_aligned());
    assert!(!s.is_right_aligned());
    assert!(!s.is_gap());
    assert!(s.equal_element("a"));
    assert!(!s.equal_element("b"));
    let g = Slot::new(Element::Null);
    assert!(g.is_gap());
    assert!(!g.equal_element("a"));
}

#[test]
fn slot_setters_change_one_thing() {
    let mut s = Slot::new(Element::Element("a"));
    s.set_left_aligned(true);
    assert!(s.is_left_aligned());
    assert!(!s.is_right_aligned());
    s.set_right_aligned(true);
    assert!(s.is_right_aligned());
    s.set_element("b");
    assert!(s.equal_element("b"));
    assert!(s.is_left_aligned() && s.is_right_aligned());
    s.set_gap();
    assert!(s.is_gap());
    assert!(s.is_left_aligned() && s.is_right_aligned());
    s.set_left_aligned(false);
    assert!(!s.is_left_aligned());
    assert!(s.is_right_aligned());
}

#[test]
fn slots_and_elements_compare_by_content() {
    let a = slot("a", true, false);
    assert!(a.same(&slot("a", true, false)));
    assert!(!a.same(&slot("a", true, true)));
    assert!(!a.same(&slot("a", false, false)));
    assert!(!a.same(&slot("b", true, false)));
    assert!(!a.same(&slot("_", true, false)));
    assert!(Element::Null.same(&Element::Null));
    assert!(!Element::Null.same(&Element::Element("a")));
    assert!(Element::Element("ab").same(&Element::Element("ab")));
}

#[test]
fn tier_concatenate_appends() {
    let t = tier(vec![slot("a", true, true)]);
    let u = tier(vec![slot("b", true, false), slot("_", false, true)]);
    let both = t.concatenate(&u);
    assert_eq!(both, tier(vec![slot("a", true, true), slot("b", true, false), slot("_", false, true)]));
    assert!(t.concatenate(&tier(vec![])).same(&t));
    assert!(!both.same(&t));
}

#[test]
fn tier_with_and_without_slot() {
    let t = tier(vec![slot("a", true, true), slot("b", true, true), slot("c", true, true)]);
    assert_eq!(
        t.with_slot(1, slot("_", false, false)),
        tier(vec![slot("a", true, true), slot("_", false, false), slot("c", true, true)])
    );
    assert_eq!(t.without_slot(0), tier(vec![slot("b", true, true), slot("c", true, true)]));
    assert_eq!(t.without_slot(2), tier(vec![slot("a", true, true), slot("b", true, true)]));
}

#[test]
fn same_column_compares_every_tier() {
    let t = Table {
        tiers: vec![
            tier(vec![slot("a", true, true), slot("a", true, true), slot("b", true, true)]),
            tier(vec![slot("_", true, true), slot("_", true, true), slot("_", true, true)]),
        ],
    };
    assert!(t.same_column(0, 1));
    assert!(t.same_column(1, 1));
    assert!(!t.same_column(0, 2));
    let none: Table<'static> = Tabular::new();
    assert!(none.same_column(3, 4));
}

#[test]
fn eliminate_column_shortens_every_tier() {
    let mut t = sample();
    t.eliminate_column(0);
    assert_eq!(
        t,
        Table { tiers: vec![tier(vec![slot("b", true, true)]), tier(vec![slot("_", false, true)])] }
    );
}

#[test]
fn null_element_empties_one_cell() {
    let t = sample().null_element(0, 1);
    assert_eq!(
        t,
        Table {
            tiers: vec![
                tier(vec![slot("a", true, true), slot("_", true, true)]),
                tier(vec![slot("_", true, false), slot("_", false, true)]),
            ],
        }
    );
}

#[test]
fn merge_keeps_the_column_while_another_tier_is_bounded() {
    // both tiers are gaps with a boundary after the first column
    let t = Table {
        tiers: vec![
            tier(vec![slot("_", true, true), slot("_", true, true)]),
            tier(vec![slot("_", true, true), slot("_", true, true)]),
        ],
    };
    let once = t.merge_cell_with_next(0, 0);
    assert_eq!(
        once,
        Table {
            tiers: vec![
                tier(vec![slot("_", true, false), slot("_", false, true)]),
                tier(vec![slot("_", true, true), slot("_", true, true)]),
            ],
        }
    );
    // the second merge takes the last boundary away, and the column with it
    let twice = once.merge_cell_with_next(1, 0);
    assert_eq!(
        twice,
        Table {
            tiers: vec![tier(vec![slot("_", false, true)]), tier(vec![slot("_", false, true)])],
        }
    );
}

#[test]
fn abstract_element_cases() {
    let t = sample();
    // a cell with an element loses it
    assert_eq!(t.abstract_element(0, 0), Some(t.null_element(0, 0)));
    // a gap that is not aligned on its right gives nothing
    assert_eq!(t.abstract_element(1, 0), None);
    // a gap at the end of its tier gives nothing
    assert_eq!(t.abstract_element(1, 1), None);
    // a gap aligned on its right before another gap is merged with it
    let g = Table {
        tiers: vec![tier(vec![slot("_", true, true), slot("_", true, true)])],
    };
    assert_eq!(g.abstract_element(0, 0), Some(Table { tiers: vec![tier(vec![slot("_", false, true)])] }));
    // a gap aligned on its right before an element gives nothing
    let h = Table {
        tiers: vec![tier(vec![slot("_", true, true), slot("a", true, true)])],
    };
    assert_eq!(h.abstract_element(0, 0), None);
}

#[test]
fn immediate_abstractions_hold_each_table_once() {
    let t = sample();
    let found = t.immediate_abstractions();
    assert_eq!(found.len(), 2);
    assert!(t.null_element(0, 0).held_in(&found));
    assert!(t.null_element(0, 1).held_in(&found));
    assert!(!t.held_in(&found));
    let none: Table<'static> = Tabular::new();
    assert!(none.immediate_abstractions().is_empty());
}

#[test]
fn abstractions_are_closed_and_hold_the_table() {
    let t = sample();
    let all = t.abstractions();
    // a, b / gap over both: each of a and b can go, in either order; then the
    // two gaps of the first tier merge, which takes the inner boundary and,
    // with no boundary left in the column, the column itself
    assert!(t.held_in(&all));
    assert!(t.null_element(0, 0).held_in(&all));
    assert!(t.null_element(0, 1).held_in(&all));
    let both = t.null_element(0, 0).null_element(0, 1);
    assert!(both.held_in(&all));
    let merged = both.merge_cell_with_next(0, 0);
    assert_eq!(
        merged,
        Table { tiers: vec![tier(vec![slot("_", false, true)]), tier(vec![slot("_", false, true)])] }
    );
    assert!(merged.held_in(&all));
    assert_eq!(all.len(), 5);
    for a in &all {
        for b in a.immediate_abstractions() {
            assert!(b.held_in(&all));
        }
    }
    for (i, a) in all.iter().enumerate() {
        for b in &all[i + 1..] {
            assert!(!a.same(b));
        }
    }
}

#[test]
fn table_concatenate_joins_tier_by_tier() {
    let t = sample();
    let u = Table {
        tiers: vec![
            tier(vec![slot("c", true, true)]),
            tier(vec![slot("d", true, true)]),
            tier(vec![slot("e", true, true)]),
        ],
    };
    let both = t.concatenate(&u);
    assert_eq!(
        both,
        Table {
            tiers: vec![
                tier(vec![slot("a", true, true), slot("b", true, true), slot("c", true, true)]),
                tier(vec![slot("_", true, false), slot("_", false, true), slot("d", true, true)]),
            ],
        }
    );
    let none: Table<'static> = Tabular::new();
    assert_eq!(none.concatenate(&u), none);
}

#[test]
fn clone_and_same() {
    let t = sample();
    assert!(t.clone().same(&t));
    assert_eq!(t.clone(), t);
    assert_eq!(t.tiers[0].clone(), t.tiers[0]);
    assert!(!t.same(&t.null_element(0, 0)));
}

#[test]
fn to_html_spans_cells_up_to_a_right_boundary() {
    let head = "\n<style type=\"text/css\">\n  table, th, td \n  {\n    border-left: 1px solid black;\n    border-right: 1px solid black;\n    border-collapse: collapse;\n    text-align: center;\n    padding: 1ex;\n  }\n</style>\n<table>";
    let none: Table<'static> = Tabular::new();
    assert_eq!(none.to_html(), format!("{}\n</table>\n", head));
    let t = sample();
    assert_eq!(
        t.to_html(),
        format!(
            "{}\n  <tr>\n    <td colspan=1>a</td>\n    <td colspan=1>b</td>\n  </tr>\n  <tr>\n    <td colspan=2>&nbsp;</td>\n  </tr>\n</table>\n",
            head
        )
    );
    // slots after the last right boundary give no cell
    let open = Table { tiers: vec![tier(vec![slot("a", true, true), slot("b", true, false)])] };
    assert_eq!(open.to_html(), format!("{}\n  <tr>\n    <td colspan=1>a</td>\n  </tr>\n</table>\n", head));
}

#[test]
fn element_text_is_the_name_or_a_blank() {
    assert_eq!(Element::Element("low").text(), "low");
    assert_eq!(Element::Null.text(), "&nbsp;");
    assert_eq!(slot("x", true, true).element_text(), "x");
    assert_eq!(slot("_", true, true).element(), Element::Null);
}
