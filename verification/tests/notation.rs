use autoseg::hungarian::notation;
use autoseg::hungarian::HungarianTable;
use autoseg::notation::read_table;
use autoseg::notation::Reader;
use autoseg::table::Element;
use autoseg::table::Slot;
use autoseg::table::Table;
use autoseg::table::Tier;
use autoseg::tabular::GraphemeTabular;
use autoseg::tabular::Tabular;

fn cell(name: &'static str, left: bool, right: bool) -> Slot<'static> {
    let mut s = Slot::new(if name == "_" { Element::Null } else { Element::Element(name) });
    s.set_left_aligned(left);
    s.set_right_aligned(right);
    s
}

fn whole(name: &'static str) -> Slot<'static> {
    cell(name, true, true)
}

fn row(slots: Vec<Slot<'static>>) -> Tier<'static> {
    Tier { slots }
}

const GRAPHEMES: [&str; 60] = [
    "a", "e", "i", "o", "u", "ö", "ü", "á", "é", "í", "ó", "ú", "ő", "ű", "b", "d", "g", "p", "t",
    "c", "č", "ď", "ť", "k", "B", "D", "C", "Č", "Ď", "Ť", "G", "P", "T", "K", "v", "f", "z", "s",
    "ž", "š", "V", "F", "Z", "S", "Ž", "Š", "j", "h", "l", "H", "J", "L", "m", "n", "ń", "M", "N",
    "Ń", "r", "R",
];

#[test]
fn reads_one_tier_of_elements() {
    assert_eq!(
        read_table("a b-c _"),
        Some(Table { tiers: vec![row(vec![whole("a"), whole("b-c"), whole("_")])] })
    );
    assert_eq!(read_table("X"), Some(Table { tiers: vec![row(vec![whole("X")])] }));
}

#[test]
fn reads_counts_as_spans() {
    assert_eq!(
        read_table("3 a"),
        Some(Table {
            tiers: vec![row(vec![cell("a", true, false), cell("a", false, false), cell("a", false, true)])],
        })
    );
    assert_eq!(read_table("1 _"), Some(Table { tiers: vec![row(vec![whole("_")])] }));
    assert_eq!(
        read_table("a 2  b"),
        Some(Table { tiers: vec![row(vec![whole("a"), cell("b", true, false), cell("b", false, true)])] })
    );
    // a count of nothing stands for no slot
    assert_eq!(read_table("0 a"), Some(Table { tiers: vec![row(vec![])] }));
    assert_eq!(read_table("007 a").map(|t| t.tiers[0].slots.len()), Some(7));
}

#[test]
fn reads_tiers_between_commas() {
    let expected = Table { tiers: vec![row(vec![whole("a")]), row(vec![whole("b"), whole("c")])] };
    assert_eq!(read_table("a,b c"), Some(expected.clone()));
    assert_eq!(read_table("  a ,\n\tb c \n"), Some(expected.clone()));
    assert_eq!(read_table("a; , b c;"), Some(expected.clone()));
    assert_eq!(read_table("a ;,b c ;  "), Some(expected));
}

#[test]
fn refuses_what_is_no_table() {
    assert_eq!(read_table(""), None);
    assert_eq!(read_table("   "), None);
    assert_eq!(read_table("a,"), None);
    assert_eq!(read_table(",a"), None);
    assert_eq!(read_table("a;b"), None);
    assert_eq!(read_table("a;;"), None);
    assert_eq!(read_table("2a"), None);
    assert_eq!(read_table("2"), None);
    assert_eq!(read_table("2 "), None);
    assert_eq!(read_table("a 2"), None);
    assert_eq!(read_table("a b3"), None);
    assert_eq!(read_table("a_"), None);
    assert_eq!(read_table("é"), None);
    assert_eq!(read_table("a é"), None);
    assert_eq!(read_table("a\rb"), None);
    // a count beyond the range of usize is no count
    assert_eq!(read_table("99999999999999999999999999 a"), None);
}

#[test]
fn from_str_complains_of_what_is_no_table() {
    assert_eq!(
        <Table<'static> as Tabular>::from_str("a b"),
        Ok(Table { tiers: vec![row(vec![whole("a"), whole("b")])] })
    );
    assert_eq!(
        <Table<'static> as Tabular>::from_str("a,"),
        Err("the text writes no table".to_string())
    );
}

#[test]
fn reader_steps() {
    let r = Reader::new(" \t\nab-Z9 12;");
    assert_eq!(r.len(), 12);
    assert_eq!(r.spaces(0), 3);
    assert_eq!(r.spaces(3), 3);
    assert_eq!(r.name(3), 7);
    assert_eq!(r.digits(7), 8);
    assert_eq!(r.digits(9), 11);
    assert_eq!(r.number(9, 11), Some(12));
    assert_eq!(r.number(9, 9), Some(0));
    assert_eq!(r.element(3), Some((Element::Element("ab-Z"), 7)));
    assert_eq!(r.element(7), None);
    assert_eq!(r.element(12), None);
    let u = Reader::new("_x");
    assert_eq!(u.element(0), Some((Element::Null, 1)));
    assert_eq!(Reader::repeat(Element::Null, 2), vec![cell("_", true, false), cell("_", false, true)]);
}

#[test]
fn notation_of_graphemes() {
    assert_eq!(notation("a"), Some("back, low, rounded, voiced, open, X, state;"));
    assert_eq!(notation("Š"), Some("2 coronal, 2 _, 2 _, 2 voiceless, 2 slit, X X, 2 event;"));
    assert_eq!(
        notation("D"),
        Some("3 dentialveolar, 3 _, 3 _, 3 voiced, 3 stop , X 2 X, 2 state event;")
    );
    assert_eq!(notation("x"), None);
    assert_eq!(notation(""), None);
    assert_eq!(notation("aa"), None);
}

#[test]
fn every_grapheme_has_a_table_of_seven_even_tiers() {
    for g in GRAPHEMES {
        let t = HungarianTable::from_grapheme(g).unwrap();
        assert_eq!(t.tiers.len(), 7);
        let width = t.tiers[0].slots.len();
        assert!(width >= 1 && width <= 3);
        for tier in &t.tiers {
            assert_eq!(tier.slots.len(), width);
        }
    }
}

#[test]
fn from_grapheme_reads_the_notation() {
    let a = HungarianTable::from_grapheme("a").unwrap();
    assert_eq!(
        a,
        Table {
            tiers: vec![
                row(vec![whole("back")]),
                row(vec![whole("low")]),
                row(vec![whole("rounded")]),
                row(vec![whole("voiced")]),
                row(vec![whole("open")]),
                row(vec![whole("X")]),
                row(vec![whole("state")]),
            ],
        }
    );
    let b = HungarianTable::from_grapheme("B").unwrap();
    let span = |name: &'static str| {
        row(vec![cell(name, true, false), cell(name, false, false), cell(name, false, true)])
    };
    assert_eq!(
        b,
        Table {
            tiers: vec![
                span("_"),
                span("_"),
                span("lips"),
                span("voiced"),
                span("stop"),
                row(vec![whole("X"), cell("X", true, false), cell("X", false, true)]),
                row(vec![cell("state", true, false), cell("state", false, true), whole("event")]),
            ],
        }
    );
}

#[test]
fn from_grapheme_complains_of_a_bad_grapheme() {
    assert_eq!(HungarianTable::from_grapheme("x"), Err("Bad grapheme: \"x\"".to_string()));
    assert_eq!(HungarianTable::from_grapheme(""), Err("Bad grapheme: \"\"".to_string()));
}

#[test]
fn from_graphemes_puts_tables_side_by_side() {
    let word = vec!["a".to_string(), "b".to_string(), "a".to_string()];
    let t = HungarianTable::from_graphemes(&word).unwrap();
    let a = HungarianTable::from_grapheme("a").unwrap();
    let b = HungarianTable::from_grapheme("b").unwrap();
    assert_eq!(t, a.concatenate(&b).concatenate(&a));
    assert_eq!(t.tiers.len(), 7);
    assert_eq!(t.tiers[0].slots.len(), 4);
    let bad = vec!["a".to_string(), "?".to_string(), "!".to_string()];
    assert_eq!(HungarianTable::from_graphemes(&bad), Err("Bad grapheme: \"?\"".to_string()));
    let worse = vec!["!".to_string(), "a".to_string()];
    assert_eq!(HungarianTable::from_graphemes(&worse), Err("Bad grapheme: \"!\"".to_string()));
}

#[test]
fn tier_names_and_indices() {
    let h: HungarianTable = GraphemeTabular::new();
    assert_eq!(h.tier_name_to_tier_index(&"tongue"), 0);
    assert_eq!(h.tier_name_to_tier_index(&"lips"), 2);
    assert_eq!(h.tier_name_to_tier_index(&"eventuality"), 6);
    assert_eq!(h.tier_index_to_tier_name(0), "tongue");
    assert_eq!(h.tier_index_to_tier_name(3), "voice");
    assert_eq!(h.tier_index_to_tier_name(5), "time");
    for i in 0..7 {
        assert_eq!(h.tier_name_to_tier_index(&h.tier_index_to_tier_name(i)), i);
    }
}

#[test]
fn from_string_reads_a_word() {
    let h: HungarianTable = GraphemeTabular::new();
    let t = h.from_string("abdta").unwrap();
    // a b d t a is spoken a p t a: the stops lose their voice before t, and
    // the geminate t that they leave is plain after a consonant
    let word = vec!["a".to_string(), "p".to_string(), "t".to_string(), "a".to_string()];
    assert_eq!(t, HungarianTable::from_graphemes(&word).unwrap());
    assert_eq!(t.tiers.len(), 7);
    assert_eq!(t.tiers[0].slots.len(), 6);
    assert_eq!(
        h.from_string(""),
        Err("Parse error: simple_grapheme: the text is empty".to_string())
    );
}

#[test]
fn join_graphemes_checks_what_from_graphemes_asks() {
    let word = vec!["a".to_string(), "b".to_string()];
    assert_eq!(
        HungarianTable::join_graphemes(&word),
        Some(HungarianTable::from_graphemes(&word))
    );
    assert_eq!(HungarianTable::join_graphemes(&vec![]), None);
    let bad = vec!["a".to_string(), "?".to_string()];
    assert_eq!(
        HungarianTable::join_graphemes(&bad),
        Some(Err("Bad grapheme: \"?\"".to_string()))
    );
}

#[test]
fn from_string_within_rounds() {
    let h: HungarianTable = GraphemeTabular::new();
    assert_eq!(h.from_string_within("abdta", 2), Some(h.from_string("abdta")));
    assert_eq!(h.from_string_within("abdta", 1), None);
    assert_eq!(h.from_string_within("alla", 10), None);
    assert_eq!(
        h.from_string_within("", 0),
        Some(Err("Parse error: simple_grapheme: the text is empty".to_string()))
    );
    // q is a letter of the spelling without a table
    assert_eq!(h.from_string_within("aq", 5), Some(Err("Bad grapheme: \"q\"".to_string())));
}
