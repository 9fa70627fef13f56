use crate::language::both_accept;
use crate::language::lemma_product_run_push;
use crate::language::lemma_run_push;
use crate::language::product_accepts;
use crate::language::product_run;
use crate::language::product_step;
use crate::model::FsaModel;
use crate::unfolding::image_first;
use crate::unfolding::image_second;
use crate::unfolding::is_intersection;
use crate::unfolding::stands_first;
use crate::unfolding::stands_second;
use crate::unfolding::unfolds;
use crate::unfolding::Naming;
use vstd::prelude::*;

verus! {

/// In the composition laid out as a tree, a word leads to its own state, and
/// a word that the two automata cannot read together leads nowhere.
pub proof fn lemma_tree_run<L>(
    a: FsaModel<L>,
    b: FsaModel<L>,
    u: FsaModel<L>,
    nm: Naming<L>,
    w: Seq<L>,
)
    requires
        unfolds(a, b, u, nm),
    ensures
        u.run(w) == if nm.node.contains_key(w) {
            Some(nm.node[w])
        } else {
            None::<u32>
        },
    decreases w.len(),
{
    if w.len() == 0 {
        assert(w =~= Seq::empty());
    } else {
        let v = w.drop_last();
        let l = w.last();
        lemma_tree_run(a, b, u, nm, v);
        assert(v.push(l) =~= w);
        if nm.node.contains_key(v) {
            assert(u.has_edge(nm.node[v], l) <==> nm.node.contains_key(v.push(l)));
        } else {
            if nm.node.contains_key(w) {
                assert(product_run(a, b, w) is Some);
                assert(product_run(a, b, v) is Some);
                assert(crate::language::product_words(a, b).contains(v));
            }
        }
    }
}

/// The composition laid out as a tree accepts the words that the two
/// automata, reading together, end in two accepting states on.
pub proof fn lemma_tree_language<L>(
    a: FsaModel<L>,
    b: FsaModel<L>,
    u: FsaModel<L>,
    nm: Naming<L>,
    w: Seq<L>,
)
    requires
        unfolds(a, b, u, nm),
    ensures
        u.accepts(w) <==> product_accepts(a, b, w),
{
    lemma_tree_run(a, b, u, nm, w);
    if nm.node.contains_key(w) {
        assert(nm.path[nm.node[w]] == w);
    } else {
        assert(!crate::language::product_words(a, b).contains(w));
    }
}

/// A run along edges of an automaton without its useless states is a run of
/// the automaton; a run of the automaton that ends in a state that is not
/// useless is a run without them.
proof fn lemma_without_useless_run<L>(m: FsaModel<L>, w: Seq<L>)
    ensures
        m.without(m.useless_states()).run(w) is Some ==> m.without(m.useless_states()).run(w)
            == m.run(w),
        m.run(w) is Some && !m.useless(m.run(w).unwrap()) ==> m.without(m.useless_states()).run(w)
            == m.run(w),
    decreases w.len(),
{
    let rest = m.without(m.useless_states());
    if w.len() > 0 {
        let v = w.drop_last();
        let l = w.last();
        lemma_without_useless_run(m, v);
        if m.run(w) is Some && !m.useless(m.run(w).unwrap()) {
            let p = m.run(v).unwrap();
            assert(m.has_edge(p, l));
            assert(!m.useless(p));
            assert(rest.has_edge(p, l));
        }
    }
}

/// One round of removal of the useless states changes nothing in what is
/// accepted.
pub proof fn lemma_without_useless_language<L>(m: FsaModel<L>, w: Seq<L>)
    ensures
        m.without(m.useless_states()).accepts(w) <==> m.accepts(w),
{
    lemma_without_useless_run(m, w);
}

/// Pruning changes nothing in what is accepted.
pub proof fn lemma_pruned_language<L>(m: FsaModel<L>, w: Seq<L>)
    ensures
        m.pruned().accepts(w) <==> m.accepts(w),
    decreases m.states.len(),
{
    if m.states.finite() && !m.settled() {
        m.lemma_without_useless_shrinks();
        lemma_without_useless_language(m, w);
        lemma_pruned_language(m.without(m.useless_states()), w);
    }
}

/// The composition accepts a word if and only if the two automata, reading
/// it together, end in two accepting states.
pub proof fn lemma_intersection_language<L>(
    a: FsaModel<L>,
    b: FsaModel<L>,
    r: FsaModel<L>,
    map1: Map<u32, Set<u32>>,
    map2: Map<u32, Set<u32>>,
)
    requires
        is_intersection(a, b, r, map1, map2),
    ensures
        forall|w: Seq<L>| #[trigger] r.accepts(w) <==> product_accepts(a, b, w),
{
    let (u, nm) = choose|u: FsaModel<L>, nm: Naming<L>| #[trigger]
        unfolds(a, b, u, nm) && r == u.pruned() && map1 == image_first(a, b, nm) && map2
            == image_second(a, b, nm);
    assert forall|w: Seq<L>| #[trigger] r.accepts(w) <==> product_accepts(a, b, w) by {
        lemma_pruned_language(u, w);
        lemma_tree_language(a, b, u, nm, w);
    }
}

/// Whether `u` is the automaton that allows everything: one state, which is
/// the start, accepts and loops, and no edge.
pub open spec fn is_unit<L>(u: FsaModel<L>) -> bool {
    &&& u.states == set![u.starting]
    &&& u.accepting.contains(u.starting)
    &&& u.looping.contains(u.starting)
    &&& forall|s: u32, l: L| !#[trigger] u.has_edge(s, l)
}

/// Read together with the automaton that allows everything, an automaton
/// runs as it does alone.
proof fn lemma_unit_run<L>(a: FsaModel<L>, unit: FsaModel<L>, w: Seq<L>)
    requires
        is_unit(unit),
    ensures
        product_run(a, unit, w) == match a.run(w) {
            Some(q) => Some((q, unit.starting)),
            None => None,
        },
    decreases w.len(),
{
    if w.len() > 0 {
        lemma_unit_run(a, unit, w.drop_last());
        match a.run(w.drop_last()) {
            Some(q) => {
                assert(!unit.has_edge(unit.starting, w.last()));
            },
            None => {},
        }
    }
}

/// The automaton that allows everything is neutral: composed with it, an
/// automaton accepts what it accepts alone.
pub proof fn unit_is_neutral<L>(
    a: FsaModel<L>,
    unit: FsaModel<L>,
    r: FsaModel<L>,
    map1: Map<u32, Set<u32>>,
    map2: Map<u32, Set<u32>>,
)
    requires
        is_unit(unit),
        is_intersection(a, unit, r, map1, map2),
    ensures
        forall|w: Seq<L>| #[trigger] r.accepts(w) <==> a.accepts(w),
{
    lemma_intersection_language(a, unit, r, map1, map2);
    assert forall|w: Seq<L>| #[trigger] r.accepts(w) <==> a.accepts(w) by {
        lemma_unit_run(a, unit, w);
        assert(r.accepts(w) <==> product_accepts(a, unit, w));
    }
}

/// Two automata that read a word together reach the same pair in either
/// order.
proof fn lemma_product_run_swap<L>(a: FsaModel<L>, b: FsaModel<L>, w: Seq<L>)
    ensures
        product_run(b, a, w) == match product_run(a, b, w) {
            Some(s) => Some((s.1, s.0)),
            None => None,
        },
    decreases w.len(),
{
    if w.len() > 0 {
        lemma_product_run_swap(a, b, w.drop_last());
    }
}

/// Composition commutes as far as acceptance goes: the composition of `a`
/// with `b` and that of `b` with `a` accept the same words, whatever ids
/// their states have.
pub proof fn intersection_commutes<L>(
    a: FsaModel<L>,
    b: FsaModel<L>,
    ab: FsaModel<L>,
    ab_map1: Map<u32, Set<u32>>,
    ab_map2: Map<u32, Set<u32>>,
    ba: FsaModel<L>,
    ba_map1: Map<u32, Set<u32>>,
    ba_map2: Map<u32, Set<u32>>,
)
    requires
        is_intersection(a, b, ab, ab_map1, ab_map2),
        is_intersection(b, a, ba, ba_map1, ba_map2),
    ensures
        forall|w: Seq<L>| #[trigger] ab.accepts(w) <==> ba.accepts(w),
{
    lemma_intersection_language(a, b, ab, ab_map1, ab_map2);
    lemma_intersection_language(b, a, ba, ba_map1, ba_map2);
    assert forall|w: Seq<L>| #[trigger] ab.accepts(w) <==> ba.accepts(w) by {
        lemma_product_run_swap(a, b, w);
        assert(ab.accepts(w) <==> product_accepts(a, b, w));
        assert(ba.accepts(w) <==> product_accepts(b, a, w));
    }
}

/// One step of an automaton that reads alone with its looping states taken
/// as states with a self-loop on every label they have no edge for.
pub open spec fn loop_step<L>(m: FsaModel<L>, s: u32, l: L) -> Option<u32> {
    if m.has_edge(s, l) {
        Some(m.target(s, l))
    } else if m.looping.contains(s) {
        Some(s)
    } else {
        None
    }
}

/// The state that `w` drives an automaton to from its start, looping states
/// taken as above.
pub open spec fn loop_run<L>(m: FsaModel<L>, w: Seq<L>) -> Option<u32>
    decreases w.len(),
{
    if w.len() == 0 {
        Some(m.starting)
    } else {
        match loop_run(m, w.drop_last()) {
            Some(q) => loop_step(m, q, w.last()),
            None => None,
        }
    }
}

/// Whether `w` drives both automata, each reading alone with its looping
/// states taken as above, to accepting states.
pub open spec fn drives_both<L>(a: FsaModel<L>, b: FsaModel<L>, w: Seq<L>) -> bool {
    match (loop_run(a, w), loop_run(b, w)) {
        (Some(p), Some(q)) => both_accept(a, b, (p, q)),
        _ => false,
    }
}

/// Whether at every label of `w`, as long as `w` drives both automata on, at
/// least one of the two has an edge to take.
pub open spec fn never_idles<L>(a: FsaModel<L>, b: FsaModel<L>, w: Seq<L>) -> bool
    decreases w.len(),
{
    if w.len() == 0 {
        true
    } else {
        &&& never_idles(a, b, w.drop_last())
        &&& match (loop_run(a, w.drop_last()), loop_run(b, w.drop_last())) {
            (Some(p), Some(q)) => a.has_edge(p, w.last()) || b.has_edge(q, w.last()),
            _ => true,
        }
    }
}

/// As long as one of the two automata has an edge to take at every label,
/// reading together is the same as reading alone side by side.
proof fn lemma_together_is_side_by_side<L>(a: FsaModel<L>, b: FsaModel<L>, w: Seq<L>)
    requires
        never_idles(a, b, w),
    ensures
        product_run(a, b, w) == match (loop_run(a, w), loop_run(b, w)) {
            (Some(p), Some(q)) => Some((p, q)),
            _ => None,
        },
    decreases w.len(),
{
    if w.len() > 0 {
        lemma_together_is_side_by_side(a, b, w.drop_last());
    }
}

/// A word at one of whose labels neither automaton has an edge to take,
/// though the word has driven both on so far, cannot be read together.
proof fn lemma_idle_is_unreadable<L>(a: FsaModel<L>, b: FsaModel<L>, w: Seq<L>)
    requires
        !never_idles(a, b, w),
    ensures
        product_run(a, b, w) is None,
    decreases w.len(),
{
    if w.len() > 0 {
        if never_idles(a, b, w.drop_last()) {
            lemma_together_is_side_by_side(a, b, w.drop_last());
        } else {
            lemma_idle_is_unreadable(a, b, w.drop_last());
        }
    }
}

/// Reading together ends in two accepting states exactly on the words that
/// drive both automata to accepting states without a label at which both
/// only loop.
pub proof fn lemma_product_accepts<L>(a: FsaModel<L>, b: FsaModel<L>, w: Seq<L>)
    ensures
        product_accepts(a, b, w) <==> drives_both(a, b, w) && never_idles(a, b, w),
{
    if never_idles(a, b, w) {
        lemma_together_is_side_by_side(a, b, w);
    } else {
        lemma_idle_is_unreadable(a, b, w);
    }
}

/// Soundness of the composition: it accepts a word if and only if the word
/// drives both automata, looping states taken as states with self-loops, to
/// accepting states.
///
/// This holds of every word but those that drive both automata to accepting
/// states over a label at which both only loop: the composition has no edge
/// for such a label, and accepts no such word.
pub proof fn intersection_is_sound<L>(
    a: FsaModel<L>,
    b: FsaModel<L>,
    r: FsaModel<L>,
    map1: Map<u32, Set<u32>>,
    map2: Map<u32, Set<u32>>,
    w: Seq<L>,
)
    requires
        is_intersection(a, b, r, map1, map2),
        drives_both(a, b, w) ==> never_idles(a, b, w),
    ensures
        r.accepts(w) <==> drives_both(a, b, w),
{
    lemma_intersection_language(a, b, r, map1, map2);
    lemma_product_accepts(a, b, w);
    assert(r.accepts(w) <==> product_accepts(a, b, w));
}

/// Pruning twice is pruning once.
pub proof fn pruning_is_idempotent<L>(m: FsaModel<L>)
    ensures
        m.pruned().pruned() == m.pruned(),
{
    if m.states.finite() {
        m.lemma_pruned_settled();
    }
}

/// Pruning makes no state.
pub proof fn lemma_pruned_states<L>(m: FsaModel<L>)
    ensures
        m.pruned().states.subset_of(m.states),
    decreases m.states.len(),
{
    if m.states.finite() && !m.settled() {
        m.lemma_without_useless_shrinks();
        lemma_pruned_states(m.without(m.useless_states()));
    }
}

/// The correspondence maps cover the composition: each state that the
/// composition has after pruning stands in either map for some state.
pub proof fn maps_cover_the_states<L>(
    a: FsaModel<L>,
    b: FsaModel<L>,
    r: FsaModel<L>,
    map1: Map<u32, Set<u32>>,
    map2: Map<u32, Set<u32>>,
    q: u32,
)
    requires
        is_intersection(a, b, r, map1, map2),
        r.states.contains(q),
    ensures
        exists|s: u32| map1.contains_key(s) && #[trigger] map1[s].contains(q),
        exists|s: u32| map2.contains_key(s) && #[trigger] map2[s].contains(q),
{
    let (u, nm) = choose|u: FsaModel<L>, nm: Naming<L>| #[trigger]
        unfolds(a, b, u, nm) && r == u.pruned() && map1 == image_first(a, b, nm) && map2
            == image_second(a, b, nm);
    lemma_pruned_states(u);
    assert(u.states.contains(q));
    assert(nm.path.contains_key(q));
    assert(nm.node.contains_key(nm.path[q]));
    assert(crate::language::product_words(a, b).contains(nm.path[q]));
    let pair = product_run(a, b, nm.path[q]).unwrap();
    assert(stands_first(a, b, nm, q, pair.0));
    assert(stands_second(a, b, nm, q, pair.1));
    assert(map1.contains_key(pair.0) && map1[pair.0].contains(q));
    assert(map2.contains_key(pair.1) && map2[pair.1].contains(q));
}

} // verus!
