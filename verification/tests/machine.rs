use autoseg::label::Label;
use autoseg::machine::IndexMap;
use autoseg::machine::Machine;
use autoseg::machine::FSA;
use std::collections::HashMap;
use std::collections::HashSet;

type Maps = HashMap<u32, HashSet<u32>>;

const X: u32 = 1;
const Y: u32 = 2;
const Z: u32 = 3;

fn words_up_to(alphabet: &[u32], depth: usize) -> Vec<Vec<u32>> {
    let mut all: Vec<Vec<u32>> = vec![vec![]];
    let mut last: Vec<Vec<u32>> = vec![vec![]];
    for _ in 0..depth {
        let mut next = Vec::new();
        for w in &last {
            for l in alphabet {
                let mut longer = w.clone();
                longer.push(*l);
                next.push(longer);
            }
        }
        all.extend(next.iter().cloned());
        last = next;
    }
    all
}

/// One state, the start, which accepts and loops and has no edge.
fn unit() -> FSA<u32> {
    let mut u: FSA<u32> = FSA::new();
    u.accepting.insert(u.starting);
    u.looping.insert(u.starting);
    u
}

/// start --x--> 1 (accepting) --y--> 2 (accepting); start --z--> 3 (dead end).
fn chain() -> FSA<u32> {
    let mut a: FSA<u32> = FSA::new();
    let s1 = a.add_node();
    let s2 = a.add_node();
    let s3 = a.add_node();
    a.add_edge(0, &X, s1);
    a.add_edge(s1, &Y, s2);
    a.add_edge(0, &Z, s3);
    a.accepting.insert(s1);
    a.accepting.insert(s2);
    a
}

/// Reads a word with looping states taken as states with a self-loop on
/// every label that they have no edge for.
fn loop_run(m: &FSA<u32>, w: &[u32]) -> Option<u32> {
    let mut s = m.starting;
    for l in w {
        match m.edge(s, l) {
            Some(t) => s = t,
            None => {
                if !m.looping.contains(&s) {
                    return None;
                }
            }
        }
    }
    Some(s)
}

fn never_idles(a: &FSA<u32>, b: &FSA<u32>, w: &[u32]) -> bool {
    let mut p = a.starting;
    let mut q = b.starting;
    for l in w {
        let ea = a.edge(p, l);
        let eb = b.edge(q, l);
        if ea.is_none() && eb.is_none() {
            return false;
        }
        match ea {
            Some(t) => p = t,
            None => {
                if !a.looping.contains(&p) {
                    return true;
                }
            }
        }
        match eb {
            Some(t) => q = t,
            None => {
                if !b.looping.contains(&q) {
                    return true;
                }
            }
        }
    }
    true
}

#[test]
fn it_works() {
    assert_eq!(2 + 2, 4);
}

#[test]
fn wildcard_of_u32_is_zero() {
    assert_eq!(<u32 as Label>::wild(), 0);
    assert!(0u32.is_wild());
    assert!(!7u32.is_wild());
}

#[test]
fn index_map_starts_empty() {
    let m: Maps = IndexMap::new();
    assert!(m.is_empty());
}

#[test]
fn new_automaton_has_its_start_alone() {
    let m: FSA<u32> = FSA::new();
    assert_eq!(m.starting, 0);
    assert!(m.accepting.is_empty());
    assert!(m.looping.is_empty());
    assert_eq!(m.edge(0, &X), None);
    assert!(!m.accepts(&vec![]));
}

#[test]
fn add_node_gives_the_next_id() {
    let mut m: FSA<u32> = FSA::new();
    assert_eq!(m.add_node(), 1);
    assert_eq!(m.add_node(), 2);
    m.remove_state(&2);
    assert_eq!(m.add_node(), 3);
    assert!(m.accepting.is_empty());
    assert!(m.looping.is_empty());
}

#[test]
fn add_edge_keeps_the_first_edge() {
    let mut m: FSA<u32> = FSA::new();
    let s1 = m.add_node();
    let s2 = m.add_node();
    m.add_edge(0, &X, s1);
    m.add_edge(0, &X, s2);
    assert_eq!(m.edge(0, &X), Some(s1));
    m.add_edge(0, &Y, s2);
    assert_eq!(m.edge(0, &Y), Some(s2));
    assert_eq!(m.edge(s1, &X), None);
}

#[test]
fn remove_state_strips_edges_and_looping_but_not_accepting() {
    let mut m: FSA<u32> = FSA::new();
    let s1 = m.add_node();
    let s2 = m.add_node();
    m.add_edge(0, &X, s1);
    m.add_edge(0, &Y, s2);
    m.add_edge(s1, &X, s2);
    m.accepting.insert(s1);
    m.looping.insert(s1);
    m.remove_state(&s1);
    assert_eq!(m.edge(0, &X), None);
    assert_eq!(m.edge(0, &Y), Some(s2));
    assert_eq!(m.edge(s1, &X), None);
    assert!(!m.looping.contains(&s1));
    assert!(m.accepting.contains(&s1));
}

#[test]
fn pruning_removes_dead_ends_in_rounds() {
    // 0 --x--> 1 --x--> 2, nothing accepts: 2 goes first, then 1, then 0.
    let mut m: FSA<u32> = FSA::new();
    let s1 = m.add_node();
    let s2 = m.add_node();
    m.add_edge(0, &X, s1);
    m.add_edge(s1, &X, s2);
    m.leave_out_useless_states();
    assert_eq!(m.edge(0, &X), None);
    assert_eq!(m.edge(s1, &X), None);
    assert!(!m.accepts(&vec![]));
    // the start is gone too: a new edge from it cannot be looked up
    assert_eq!(m.add_node(), 3);
}

#[test]
fn pruning_keeps_what_leads_to_acceptance() {
    let mut m = chain();
    m.leave_out_useless_states();
    assert_eq!(m.edge(0, &X), Some(1));
    assert_eq!(m.edge(1, &Y), Some(2));
    assert_eq!(m.edge(0, &Z), None);
    assert!(m.accepts(&vec![X]));
    assert!(m.accepts(&vec![X, Y]));
    assert!(!m.accepts(&vec![Z]));
}

#[test]
fn pruning_keeps_unreachable_states_that_have_an_edge() {
    let mut m: FSA<u32> = FSA::new();
    let s1 = m.add_node();
    let s2 = m.add_node();
    let s3 = m.add_node();
    m.accepting.insert(0);
    m.accepting.insert(s3);
    // s2 cannot be reached from the start, but has an edge to a live state
    m.add_edge(s2, &X, s3);
    m.add_edge(0, &Y, s1);
    m.leave_out_useless_states();
    assert_eq!(m.edge(s2, &X), Some(s3));
    assert_eq!(m.edge(0, &Y), None);
}

#[test]
fn pruning_twice_is_pruning_once() {
    let mut once = chain();
    once.leave_out_useless_states();
    let mut twice = chain();
    twice.leave_out_useless_states();
    twice.leave_out_useless_states();
    assert_eq!(once.starting, twice.starting);
    assert_eq!(once.accepting, twice.accepting);
    assert_eq!(once.looping, twice.looping);
    for s in 0..5u32 {
        for l in [X, Y, Z] {
            assert_eq!(once.edge(s, &l), twice.edge(s, &l));
        }
    }
}

#[test]
fn accepts_follows_edges_only() {
    let mut m = chain();
    m.looping.insert(0);
    assert!(!m.accepts(&vec![]));
    assert!(m.accepts(&vec![X]));
    assert!(m.accepts(&vec![X, Y]));
    assert!(!m.accepts(&vec![Y]));
    assert!(!m.accepts(&vec![X, Y, Y]));
}

#[test]
fn intersection_of_looping_start_with_one_step() {
    // A: two states, the start accepts and loops. B: start --x--> 1, 1 accepts.
    let mut a: FSA<u32> = FSA::new();
    a.add_node();
    a.accepting.insert(0);
    a.looping.insert(0);
    let mut b: FSA<u32> = FSA::new();
    let b1 = b.add_node();
    b.add_edge(0, &X, b1);
    b.accepting.insert(b1);
    let (r, map1, map2): (FSA<u32>, Maps, Maps) = FSA::intersection(&a, &b);
    assert!(r.accepts(&vec![X]));
    assert!(!r.accepts(&vec![]));
    assert!(!r.accepts(&vec![X, X]));
    for w in words_up_to(&[X, Y], 3) {
        assert_eq!(r.accepts(&w), w == vec![X]);
    }
    // state 0 of A stands behind both states of the result
    assert_eq!(map1.get(&0), Some(&[0u32, 1].into_iter().collect::<HashSet<u32>>()));
    assert_eq!(map2.get(&0), Some(&[0u32].into_iter().collect::<HashSet<u32>>()));
    assert_eq!(map2.get(&b1), Some(&[1u32].into_iter().collect::<HashSet<u32>>()));
    assert_eq!(map1.len(), 1);
    assert_eq!(map2.len(), 2);
}

#[test]
fn intersection_without_shared_labels_is_empty() {
    let mut a: FSA<u32> = FSA::new();
    let a1 = a.add_node();
    a.add_edge(0, &X, a1);
    a.accepting.insert(a1);
    let mut b: FSA<u32> = FSA::new();
    let b1 = b.add_node();
    b.add_edge(0, &Y, b1);
    b.accepting.insert(b1);
    let (r, map1, map2): (FSA<u32>, Maps, Maps) = FSA::intersection(&a, &b);
    for w in words_up_to(&[X, Y], 3) {
        assert!(!r.accepts(&w));
    }
    assert_eq!(r.edge(0, &X), None);
    assert_eq!(r.edge(0, &Y), None);
    assert!(r.accepting.is_empty());
    // the start itself was pruned away: it is no state of the result any more
    assert!(r.transitions().is_empty());
    let mut r = r;
    assert_eq!(r.add_node(), 1);
    r.leave_out_useless_states();
    assert_eq!(map1.get(&0), Some(&[0u32].into_iter().collect::<HashSet<u32>>()));
    assert_eq!(map2.get(&0), Some(&[0u32].into_iter().collect::<HashSet<u32>>()));
}

#[test]
fn intersection_without_shared_labels_keeps_accepting_start() {
    let mut a: FSA<u32> = FSA::new();
    let a1 = a.add_node();
    a.add_edge(0, &X, a1);
    a.accepting.insert(0);
    let mut b: FSA<u32> = FSA::new();
    let b1 = b.add_node();
    b.add_edge(0, &Y, b1);
    b.accepting.insert(0);
    let (r, _map1, _map2): (FSA<u32>, Maps, Maps) = FSA::intersection(&a, &b);
    for w in words_up_to(&[X, Y], 3) {
        assert_eq!(r.accepts(&w), w.is_empty());
    }
    assert!(r.accepting.contains(&0));
    assert_eq!(r.transitions().len(), 1);
    assert!(r.transitions()[&0].is_empty());
}

#[test]
fn intersection_with_unit_keeps_the_language() {
    let a = chain();
    let u = unit();
    let (r, _m1, _m2): (FSA<u32>, Maps, Maps) = FSA::intersection(&a, &u);
    let (l, _m3, _m4): (FSA<u32>, Maps, Maps) = FSA::intersection(&u, &a);
    for w in words_up_to(&[X, Y, Z], 4) {
        assert_eq!(r.accepts(&w), a.accepts(&w));
        assert_eq!(l.accepts(&w), a.accepts(&w));
    }
}

#[test]
fn intersection_commutes_on_languages() {
    let a = chain();
    let mut b: FSA<u32> = FSA::new();
    let b1 = b.add_node();
    let b2 = b.add_node();
    b.add_edge(0, &X, b1);
    b.add_edge(b1, &Z, b2);
    b.accepting.insert(b1);
    b.accepting.insert(b2);
    b.looping.insert(b1);
    let (ab, _m1, _m2): (FSA<u32>, Maps, Maps) = FSA::intersection(&a, &b);
    let (ba, _m3, _m4): (FSA<u32>, Maps, Maps) = FSA::intersection(&b, &a);
    let mut accepted = 0;
    for w in words_up_to(&[X, Y, Z], 4) {
        assert_eq!(ab.accepts(&w), ba.accepts(&w));
        if ab.accepts(&w) {
            accepted += 1;
        }
    }
    // x and x y: at 1 of B, y has no edge, but 1 of B loops
    assert_eq!(accepted, 2);
    assert!(ab.accepts(&vec![X]));
    assert!(ab.accepts(&vec![X, Y]));
}

#[test]
fn intersection_is_sound_where_some_automaton_moves() {
    let a = chain();
    let mut b: FSA<u32> = FSA::new();
    let b1 = b.add_node();
    b.add_edge(0, &X, b1);
    b.accepting.insert(b1);
    b.looping.insert(b1);
    b.looping.insert(0);
    let (r, _m1, _m2): (FSA<u32>, Maps, Maps) = FSA::intersection(&a, &b);
    for w in words_up_to(&[X, Y, Z], 4) {
        let driven = match (loop_run(&a, &w), loop_run(&b, &w)) {
            (Some(p), Some(q)) => a.accepting.contains(&p) && b.accepting.contains(&q),
            _ => false,
        };
        if !driven || never_idles(&a, &b, &w) {
            assert_eq!(r.accepts(&w), driven);
        }
    }
}

#[test]
fn two_units_accept_the_empty_word_only() {
    // a label at which both automata only loop gives no edge
    let (r, _m1, _m2): (FSA<u32>, Maps, Maps) = FSA::intersection(&unit(), &unit());
    assert!(r.accepts(&vec![]));
    assert!(!r.accepts(&vec![X]));
    assert!(r.looping.contains(&0));
}

#[test]
fn maps_cover_the_states_of_the_result() {
    let a = chain();
    let mut b = chain();
    b.looping.insert(0);
    let (r, map1, map2): (FSA<u32>, Maps, Maps) = FSA::intersection(&a, &b);
    let mut live: Vec<u32> = vec![0];
    for w in words_up_to(&[X, Y, Z], 3) {
        let mut s = 0;
        let mut alive = true;
        for l in &w {
            match r.edge(s, l) {
                Some(t) => s = t,
                None => {
                    alive = false;
                    break;
                }
            }
        }
        if alive {
            live.push(s);
        }
    }
    assert!(live.len() > 1);
    for s in live {
        assert!(map1.values().any(|set| set.contains(&s)));
        assert!(map2.values().any(|set| set.contains(&s)));
    }
}

#[test]
fn intersection_drops_a_label_where_the_other_does_not_loop() {
    // A: 0 --x--> 1 --y--> 2; B: 0 --x--> 1, 1 accepts and does not loop.
    let a = chain();
    let mut b: FSA<u32> = FSA::new();
    let b1 = b.add_node();
    b.add_edge(0, &X, b1);
    b.accepting.insert(b1);
    let (r, _m1, _m2): (FSA<u32>, Maps, Maps) = FSA::intersection(&a, &b);
    assert!(r.accepts(&vec![X]));
    assert!(!r.accepts(&vec![X, Y]));
    assert_eq!(r.edge(1, &Y), None);
}

#[test]
fn intersection_flags_follow_the_pairs() {
    let mut a = chain();
    a.looping.insert(1);
    let mut b = chain();
    b.looping.insert(1);
    b.accepting.remove(&2);
    let (r, _m1, _m2): (FSA<u32>, Maps, Maps) = FSA::intersection(&a, &b);
    let after_x = r.edge(0, &X).unwrap();
    assert!(r.accepting.contains(&after_x));
    assert!(r.looping.contains(&after_x));
    // x y ends in 2 of both, which accepts in A only: the state is pruned
    assert_eq!(r.edge(after_x, &Y), None);
}

#[test]
fn render_walks_breadth_first_in_label_order() {
    let mut m = chain();
    m.looping.insert(0);
    // 0 --x--> 1, 0 --z--> 3, 1 --y--> 2; labels x = 1, y = 2, z = 3
    assert_eq!(m.render(), "0$ 1 -> 1 3 -> 3\n1. 2 -> 2\n3\n2.\n");
}

#[test]
fn render_repeats_a_state_reached_twice_before_its_line() {
    let mut m: FSA<u32> = FSA::new();
    let s1 = m.add_node();
    let s2 = m.add_node();
    let s3 = m.add_node();
    m.add_edge(0, &X, s1);
    m.add_edge(0, &Y, s2);
    m.add_edge(s1, &X, s3);
    m.add_edge(s2, &X, s3);
    m.accepting.insert(s3);
    m.looping.insert(s3);
    assert_eq!(m.render(), "0 1 -> 1 2 -> 2\n1 1 -> 3\n2 1 -> 3\n3.$\n3.$\n");
}

#[test]
fn render_of_a_new_automaton() {
    let m: FSA<u32> = FSA::new();
    assert_eq!(m.render(), "0\n");
}

#[test]
fn traversal_lists_lines_with_flags_and_edges() {
    let m = chain();
    let lines = m.traversal();
    assert_eq!(lines.len(), 4);
    assert_eq!(lines[0].node, 0);
    assert!(!lines[0].accepting);
    assert_eq!(lines[0].edges, vec![(X, 1), (Z, 3)]);
    assert_eq!(lines[1].node, 1);
    assert!(lines[1].accepting);
    assert_eq!(lines[1].edges, vec![(Y, 2)]);
    assert_eq!(lines[2].node, 3);
    assert_eq!(lines[3].node, 2);
}

#[test]
fn decimal_text_writes_digits() {
    assert_eq!(autoseg::render::decimal_text(0), "0");
    assert_eq!(autoseg::render::decimal_text(7), "7");
    assert_eq!(autoseg::render::decimal_text(10), "10");
    assert_eq!(autoseg::render::decimal_text(4294967295), "4294967295");
}

#[test]
fn transitions_and_largest_state_can_be_read() {
    let m = chain();
    assert_eq!(m.largest_state(), 3);
    let table = m.transitions();
    assert_eq!(table.len(), 4);
    assert_eq!(table[&0].get(&X), Some(&1));
    assert_eq!(table[&0].get(&Z), Some(&3));
    assert!(table[&2].is_empty());
    // ids are not given twice
    let mut m = m;
    m.remove_state(&3);
    assert_eq!(m.largest_state(), 3);
    assert_eq!(m.add_node(), 4);
    assert!(!m.transitions().contains_key(&3));
}

#[test]
fn intersection_within_a_limit() {
    let a = chain();
    let u = unit();
    // the tree of the chain has four states: ids up to 3
    assert!(FSA::intersection_within(&a, &u, 2).is_none());
    let (r, map1, _map2) = FSA::intersection_within(&a, &u, 3).unwrap();
    for w in words_up_to(&[X, Y, Z], 4) {
        assert_eq!(r.accepts(&w), a.accepts(&w));
    }
    assert_eq!(map1.len(), 4);
    let (full, _m1, _m2): (FSA<u32>, Maps, Maps) = FSA::intersection(&a, &u);
    assert_eq!(full.render(), r.render());
    assert!(FSA::intersection_within(&a, &u, u32::MAX).is_some());
    assert!(FSA::intersection_within(&u, &u, 0).is_some());
}

#[test]
fn intersection_within_gives_up_on_a_cycle() {
    // 0 --x--> 0 in both: the words x, xx, xxx, ... never end
    let mut a: FSA<u32> = FSA::new();
    a.add_edge(0, &X, 0);
    a.accepting.insert(0);
    let mut b: FSA<u32> = FSA::new();
    b.add_edge(0, &X, 0);
    b.accepting.insert(0);
    assert!(FSA::intersection_within(&a, &b, 1000).is_none());
    // against an automaton without the label, the cycle is never entered
    let mut c: FSA<u32> = FSA::new();
    c.accepting.insert(0);
    let (r, _m1, _m2) = FSA::intersection_within(&a, &c, 0).unwrap();
    assert!(r.accepts(&vec![]));
    assert!(!r.accepts(&vec![X]));
}

#[test]
fn seed_is_the_start_of_a_composition() {
    let mut a = chain();
    a.accepting.insert(0);
    let u = unit();
    let (result, map1, map2, todo) = FSA::seed(&a, &u);
    assert_eq!(result.starting, 0);
    assert!(result.accepting.contains(&0));
    assert!(result.looping.is_empty());
    assert_eq!(map1.get(&0), Some(&[0u32].into_iter().collect::<HashSet<u32>>()));
    assert_eq!(map2.get(&0), Some(&[0u32].into_iter().collect::<HashSet<u32>>()));
    assert_eq!(todo, vec![(0, 0, 0)]);
    let mut result = result;
    let mut map1 = map1;
    let mut map2 = map2;
    let mut todo = todo;
    assert!(FSA::intersection_loop(&a, &u, &mut result, &mut map1, &mut map2, &mut todo, 10));
    assert_eq!(todo.len(), 4);
    assert_eq!(todo[0], (0, 0, 0));
    assert!(result.accepts(&vec![]));
    assert!(result.accepts(&vec![X, Y]));
}

#[test]
fn setters_change_start_and_flags() {
    let mut m = chain();
    m.set_starting(1);
    assert_eq!(m.starting, 1);
    assert!(m.accepts(&vec![]));
    assert!(m.accepts(&vec![Y]));
    m.set_accepting(1, false);
    assert!(!m.accepting.contains(&1));
    m.set_accepting(3, true);
    assert!(m.accepting.contains(&3));
    m.set_looping(2, true);
    assert!(m.looping.contains(&2));
    m.set_looping(2, false);
    m.set_looping(7, false);
    assert!(m.looping.is_empty());
    assert_eq!(m.edge(0, &X), Some(1));
}

fn set(items: &[u32]) -> HashSet<u32> {
    items.iter().cloned().collect()
}

/// A: 0 --x--> 1 --y--> 2, 1 and 2 accept, 1 loops. B: the same.
fn pair() -> (FSA<u32>, FSA<u32>) {
    let mut a: FSA<u32> = FSA::new();
    let a1 = a.add_node();
    let a2 = a.add_node();
    a.add_edge(0, &X, a1);
    a.add_edge(a1, &Y, a2);
    a.accepting.insert(a1);
    a.accepting.insert(a2);
    a.looping.insert(a1);
    let mut b: FSA<u32> = FSA::new();
    let b1 = b.add_node();
    let b2 = b.add_node();
    b.add_edge(0, &X, b1);
    b.add_edge(b1, &Y, b2);
    b.accepting.insert(b1);
    b.accepting.insert(b2);
    b.looping.insert(b1);
    (a, b)
}

#[test]
fn a_new_state_takes_the_flags_of_its_pair() {
    let (a, b) = pair();
    let (mut result, mut map1, mut map2, mut todo) = FSA::seed(&a, &b);
    let mut visited: std::collections::BTreeSet<(u32, u32, u32)> = todo.iter().cloned().collect();
    let node = result.add_node();
    FSA::intersection_both_but_not_result_have_edge(
        &a, &b, &mut result, &mut map1, &mut map2, &mut todo, &mut visited, &1, &1, node,
    );
    assert!(result.accepting.contains(&node));
    assert!(result.looping.contains(&node));
    assert_eq!(map1.get(&1), Some(&set(&[node])));
    assert_eq!(map2.get(&1), Some(&set(&[node])));
    assert_eq!(todo, vec![(0, 0, 0), (1, 1, node)]);
    assert!(visited.contains(&(1, 1, node)));
    let other = result.add_node();
    FSA::intersection_both_but_not_result_have_edge(
        &a, &b, &mut result, &mut map1, &mut map2, &mut todo, &mut visited, &1, &2, other,
    );
    assert!(result.accepting.contains(&other));
    assert!(!result.looping.contains(&other));
    assert_eq!(map1.get(&1), Some(&set(&[node, other])));
    assert_eq!(map2.get(&2), Some(&set(&[other])));
}

#[test]
fn a_state_that_was_there_keeps_a_flag_only_if_the_pair_has_it() {
    let (a, b) = pair();
    let (mut result, mut map1, mut map2, mut todo) = FSA::seed(&a, &b);
    let mut visited: std::collections::BTreeSet<(u32, u32, u32)> = todo.iter().cloned().collect();
    let node = result.add_node();
    result.accepting.insert(node);
    result.looping.insert(node);
    // the pair (1, 1) accepts and loops: both flags stay
    FSA::intersection_both_and_result_have_edge(
        &a, &b, &mut result, &mut map1, &mut map2, &mut todo, &mut visited, &1, &1, node,
    );
    assert!(result.accepting.contains(&node));
    assert!(result.looping.contains(&node));
    assert_eq!(todo.len(), 2);
    // the same triple is not queued twice
    FSA::intersection_both_and_result_have_edge(
        &a, &b, &mut result, &mut map1, &mut map2, &mut todo, &mut visited, &1, &1, node,
    );
    assert_eq!(todo.len(), 2);
    // the pair (1, 2) accepts and does not loop: looping goes
    FSA::intersection_both_and_result_have_edge(
        &a, &b, &mut result, &mut map1, &mut map2, &mut todo, &mut visited, &1, &2, node,
    );
    assert!(result.accepting.contains(&node));
    assert!(!result.looping.contains(&node));
    // the pair (0, 2) does not accept: accepting goes
    FSA::intersection_both_and_result_have_edge(
        &a, &b, &mut result, &mut map1, &mut map2, &mut todo, &mut visited, &0, &2, node,
    );
    assert!(!result.accepting.contains(&node));
    assert_eq!(map1.get(&1), Some(&set(&[node])));
    assert_eq!(map1.get(&0), Some(&set(&[0, node])));
    assert_eq!(map2.get(&2), Some(&set(&[node])));
    assert_eq!(todo, vec![(0, 0, 0), (1, 1, node), (1, 2, node), (0, 2, node)]);
}

#[test]
fn a_step_makes_an_edge_or_takes_the_one_that_is_there() {
    let (a, b) = pair();
    let (mut result, mut map1, mut map2, mut todo) = FSA::seed(&a, &b);
    let mut visited: std::collections::BTreeSet<(u32, u32, u32)> = todo.iter().cloned().collect();
    FSA::intersection_both_have_edge(
        &a, &b, &mut result, &mut map1, &mut map2, &mut todo, &mut visited, &X, &1, &1, &0,
    );
    assert_eq!(result.edge(0, &X), Some(1));
    assert!(result.accepting.contains(&1));
    assert!(result.looping.contains(&1));
    // a second step on the same label lands on the same state and tightens it
    FSA::intersection_both_have_edge(
        &a, &b, &mut result, &mut map1, &mut map2, &mut todo, &mut visited, &X, &2, &2, &0,
    );
    assert_eq!(result.edge(0, &X), Some(1));
    assert_eq!(result.largest_state(), 1);
    assert!(result.accepting.contains(&1));
    assert!(!result.looping.contains(&1));
    assert_eq!(todo, vec![(0, 0, 0), (1, 1, 1), (2, 2, 1)]);
}

#[test]
fn a_label_of_one_automaton_needs_a_loop_in_the_other() {
    let (a, b) = pair();
    let (mut result, mut map1, mut map2, mut todo) = FSA::seed(&a, &b);
    let mut visited: std::collections::BTreeSet<(u32, u32, u32)> = todo.iter().cloned().collect();
    // 0 of B does not loop: the label is dropped
    FSA::intersection_only_first_has_edge(
        &a, &b, &mut result, &mut map1, &mut map2, &mut todo, &mut visited, &Z, &2, 0, 0,
    );
    assert_eq!(result.edge(0, &Z), None);
    assert_eq!(todo.len(), 1);
    assert_eq!(result.largest_state(), 0);
    // 1 of B loops: B stays at 1 while A goes to 2
    FSA::intersection_only_first_has_edge(
        &a, &b, &mut result, &mut map1, &mut map2, &mut todo, &mut visited, &Z, &2, 1, 0,
    );
    assert_eq!(result.edge(0, &Z), Some(1));
    assert!(result.accepting.contains(&1));
    assert!(!result.looping.contains(&1));
    assert_eq!(todo, vec![(0, 0, 0), (2, 1, 1)]);
    assert_eq!(map1.get(&2), Some(&set(&[1])));
    assert_eq!(map2.get(&1), Some(&set(&[1])));
    // and the other way round
    FSA::intersection_only_second_has_edge(
        &a, &b, &mut result, &mut map1, &mut map2, &mut todo, &mut visited, &Y, 0, &2, 0,
    );
    assert_eq!(result.edge(0, &Y), None);
    FSA::intersection_only_second_has_edge(
        &a, &b, &mut result, &mut map1, &mut map2, &mut todo, &mut visited, &Y, 1, &1, 0,
    );
    assert_eq!(result.edge(0, &Y), Some(2));
    assert!(result.accepting.contains(&2));
    assert!(result.looping.contains(&2));
    assert_eq!(todo, vec![(0, 0, 0), (2, 1, 1), (1, 1, 2)]);
}

#[test]
fn intersection_within_gives_up_on_a_missing_entry() {
    // the edge of A leads to a state that was never made
    let mut a: FSA<u32> = FSA::new();
    a.add_edge(0, &X, 9);
    let mut b = unit();
    assert!(FSA::intersection_within(&a, &b, 100).is_none());
    // where the other automaton does not follow, the state is never looked at
    b.looping.clear();
    let (r, _m1, _m2) = FSA::intersection_within(&a, &b, 100).unwrap();
    assert!(!r.accepts(&vec![]));
    assert!(!r.accepts(&vec![X]));
}
