use autoseg::labelset::display_set;
use autoseg::labelset::Labelset;
use autoseg::setoid::Setoid;
use std::collections::HashSet;

fn set(items: &[u32]) -> HashSet<u32> {
    items.iter().cloned().collect()
}

fn subset(items: &[u32]) -> Labelset<u32> {
    Labelset::Subset(set(items))
}

fn compl(items: &[u32]) -> Labelset<u32> {
    Labelset::Compl(set(items))
}

fn forms() -> Vec<Labelset<u32>> {
    vec![
        Labelset::All,
        Labelset::Empty,
        subset(&[]),
        subset(&[1, 2]),
        subset(&[2, 3]),
        compl(&[]),
        compl(&[1, 2]),
        compl(&[2, 3]),
    ]
}

#[test]
fn empty_and_is_empty() {
    let e: Labelset<u32> = Setoid::empty();
    assert!(e.same(&Labelset::Empty));
    assert!(e.is_empty());
    assert!(!subset(&[]).is_empty());
    assert!(!Labelset::<u32>::All.is_empty());
    assert!(!compl(&[1]).is_empty());
}

#[test]
fn same_compares_form_and_set() {
    assert!(subset(&[1, 2]).same(&subset(&[2, 1])));
    assert!(!subset(&[1, 2]).same(&compl(&[1, 2])));
    assert!(!subset(&[1, 2]).same(&subset(&[1])));
    assert!(!subset(&[]).same(&Labelset::Empty));
    assert!(compl(&[3]).same(&compl(&[3])));
    assert!(Labelset::<u32>::All.same(&Labelset::All));
    assert!(!Labelset::<u32>::All.same(&compl(&[])));
    assert!(subset(&[1, 2]).clone().same(&subset(&[1, 2])));
}

#[test]
fn member_of_each_form() {
    assert!(Labelset::<u32>::All.member(&7));
    assert!(!Labelset::<u32>::Empty.member(&7));
    assert!(subset(&[1, 2]).member(&2));
    assert!(!subset(&[1, 2]).member(&3));
    assert!(!compl(&[1, 2]).member(&2));
    assert!(compl(&[1, 2]).member(&3));
}

#[test]
fn intersection_forms() {
    assert!(Labelset::All.intersection(&subset(&[1])).same(&subset(&[1])));
    assert!(Labelset::Empty.intersection(&subset(&[1])).same(&Labelset::Empty));
    assert!(subset(&[1, 2]).intersection(&Labelset::All).same(&subset(&[1, 2])));
    assert!(subset(&[1, 2]).intersection(&Labelset::Empty).same(&Labelset::Empty));
    assert!(subset(&[1, 2]).intersection(&subset(&[2, 3])).same(&subset(&[2])));
    // two finite sets without a common member stay in the finite form
    assert!(subset(&[1]).intersection(&subset(&[2])).same(&subset(&[])));
    assert!(subset(&[1, 2]).intersection(&compl(&[2, 3])).same(&subset(&[1])));
    // a difference that comes out empty is reduced
    assert!(subset(&[1, 2]).intersection(&compl(&[1, 2, 3])).same(&Labelset::Empty));
    assert!(compl(&[1, 2]).intersection(&Labelset::All).same(&compl(&[1, 2])));
    assert!(compl(&[1, 2]).intersection(&Labelset::Empty).same(&Labelset::Empty));
    assert!(compl(&[1, 2]).intersection(&subset(&[2, 3])).same(&subset(&[3])));
    assert!(compl(&[1, 2]).intersection(&subset(&[2])).same(&Labelset::Empty));
    assert!(compl(&[1, 2]).intersection(&compl(&[2, 3])).same(&compl(&[1, 2, 3])));
}

#[test]
fn union_forms() {
    assert!(Labelset::All.union(&subset(&[1])).same(&Labelset::All));
    assert!(Labelset::Empty.union(&subset(&[1])).same(&subset(&[1])));
    assert!(subset(&[1]).union(&Labelset::All).same(&Labelset::All));
    assert!(subset(&[1]).union(&Labelset::Empty).same(&subset(&[1])));
    assert!(subset(&[1, 2]).union(&subset(&[2, 3])).same(&subset(&[1, 2, 3])));
    assert!(subset(&[1, 2]).union(&compl(&[2, 3])).same(&compl(&[3])));
    assert!(subset(&[1, 2]).union(&compl(&[1])).same(&Labelset::All));
    assert!(compl(&[1]).union(&Labelset::All).same(&Labelset::All));
    assert!(compl(&[1]).union(&Labelset::Empty).same(&compl(&[1])));
    assert!(compl(&[1, 2]).union(&subset(&[2, 3])).same(&compl(&[1])));
    assert!(compl(&[1, 2]).union(&subset(&[1, 2])).same(&Labelset::All));
    assert!(compl(&[1, 2]).union(&compl(&[2, 3])).same(&compl(&[2])));
}

#[test]
fn complement_and_difference_forms() {
    assert!(Labelset::<u32>::All.complement().same(&Labelset::Empty));
    assert!(Labelset::<u32>::Empty.complement().same(&Labelset::All));
    assert!(subset(&[1]).complement().same(&compl(&[1])));
    assert!(compl(&[1]).complement().same(&subset(&[1])));
    assert!(subset(&[1, 2]).difference(&subset(&[2, 3])).same(&subset(&[1])));
    assert!(subset(&[1, 2]).difference(&subset(&[1, 2])).same(&Labelset::Empty));
    assert!(Labelset::All.difference(&subset(&[1])).same(&compl(&[1])));
    assert!(compl(&[1]).difference(&compl(&[1, 2])).same(&subset(&[2])));
}

#[test]
fn operations_agree_with_membership() {
    for a in forms() {
        for b in forms() {
            let i = a.intersection(&b);
            let u = a.union(&b);
            let d = a.difference(&b);
            let c = a.complement();
            for x in 0..6u32 {
                assert_eq!(i.member(&x), a.member(&x) && b.member(&x));
                assert_eq!(u.member(&x), a.member(&x) || b.member(&x));
                assert_eq!(d.member(&x), a.member(&x) && !b.member(&x));
                assert_eq!(c.member(&x), !a.member(&x));
            }
        }
    }
}

#[test]
fn render_of_each_form() {
    assert_eq!(Labelset::<u32>::All.render(), "*");
    assert_eq!(Labelset::<u32>::Empty.render(), "0");
    assert_eq!(subset(&[]).render(), "{ }");
    assert_eq!(subset(&[7]).render(), "{ 7 }");
    assert_eq!(compl(&[12]).render(), "~{ 12 }");
    assert_eq!(compl(&[]).render(), "~{ }");
    let two = display_set(&set(&[1, 2]));
    assert!(two == "{ 1 2 }" || two == "{ 2 1 }");
}

#[test]
fn equality_and_clone() {
    assert!(subset(&[1, 2]) == subset(&[2, 1]));
    assert!(subset(&[1, 2]) != compl(&[1, 2]));
    assert!(subset(&[]) != Labelset::Empty);
    assert!(compl(&[4]).clone() == compl(&[4]));
    assert!(Labelset::<u32>::All.clone() == Labelset::All);
}
