use crate::label::Label;
use crate::model::FsaModel;
use crate::order::lemma_one_order;
use crate::order::lists_in_order;
use vstd::prelude::*;
use vstd::set_lib::lemma_len_subset;

verus! {

/// One line of the dump of an automaton: a state, its two flags, and the
/// edges that leave it, in the order of their labels.
#[verifier::reject_recursive_types(L)]
pub struct LineModel<L> {
    pub node: u32,
    pub accepting: bool,
    pub looping: bool,
    pub edges: Seq<(L, u32)>,
}

/// The edges that leave `s`, as a map from label to target.
pub open spec fn edges_from<L>(m: FsaModel<L>, s: u32) -> Map<L, u32> {
    Map::new(|l: L| m.has_edge(s, l), |l: L| m.target(s, l))
}

/// The edges that leave `s`, in the order of their labels.
pub open spec fn edge_list<L: Label>(m: FsaModel<L>, s: u32) -> Seq<(L, u32)> {
    choose|list: Seq<(L, u32)>| lists_in_order(list, edges_from(m, s))
}

/// The line of the state `s`.
pub open spec fn line_of<L: Label>(m: FsaModel<L>, s: u32) -> LineModel<L> {
    LineModel {
        node: s,
        accepting: m.accepting.contains(s),
        looping: m.looping.contains(s),
        edges: edge_list(m, s),
    }
}

/// The targets of the edges of a list that are not in `printed`, in the
/// order of the list.
pub open spec fn unprinted_targets<L>(edges: Seq<(L, u32)>, printed: Set<u32>) -> Seq<u32>
    decreases edges.len(),
{
    if edges.len() == 0 {
        Seq::empty()
    } else {
        let before = unprinted_targets(edges.drop_last(), printed);
        if printed.contains(edges.last().1) {
            before
        } else {
            before.push(edges.last().1)
        }
    }
}

/// How many places of `pending` hold a state of `printed`.
pub open spec fn stale(pending: Seq<u32>, printed: Set<u32>) -> nat
    decreases pending.len(),
{
    if pending.len() == 0 {
        0
    } else {
        stale(pending.drop_first(), printed) + if printed.contains(pending[0]) {
            1nat
        } else {
            0nat
        }
    }
}

/// The lines that the dump goes on with when the states of `pending` wait
/// for their line and those of `printed` have had one.
///
/// The first state that waits gets its line. The targets of its edges that
/// have had no line yet go to the end of those that wait, in the order of the
/// labels: so a state that is reached twice before its first line gets a
/// line for each time.
pub open spec fn walk_from<L: Label>(
    m: FsaModel<L>,
    pending: Seq<u32>,
    printed: Set<u32>,
) -> Seq<LineModel<L>>
    decreases m.states.difference(printed).len(), stale(pending, printed),
{
    if pending.len() == 0 || !m.states.finite() || !m.states.contains(pending[0]) {
        Seq::empty()
    } else {
        let node = pending[0];
        let more = unprinted_targets(edge_list(m, node), printed);
        proof {
            lemma_walk_decreases(m, pending, printed, edge_list(m, node));
        }
        seq![line_of(m, node)] + walk_from(m, pending.drop_first() + more, printed.insert(node))
    }
}

/// The dump of an automaton: the lines of a walk that starts with the start
/// alone.
pub open spec fn traversal<L: Label>(m: FsaModel<L>) -> Seq<LineModel<L>> {
    walk_from(m, seq![m.starting], Set::empty())
}

/// Every state that a word leads to from the start has its entry in the
/// table.
pub open spec fn rooted<L>(m: FsaModel<L>) -> bool {
    forall|w: Seq<L>| #[trigger] m.run(w) is Some ==> m.states.contains(m.run(w).unwrap())
}

/// In an automaton that is closed, every state that a word leads to from the
/// start has its entry in the table.
pub proof fn closed_automaton_is_rooted<L>(m: FsaModel<L>)
    requires
        m.closed(),
    ensures
        rooted(m),
{
    assert forall|w: Seq<L>| #[trigger] m.run(w) is Some implies m.states.contains(
        m.run(w).unwrap(),
    ) by {
        crate::language::lemma_closed_run(m, w);
    }
}

/// None of the targets that have had no line is in `printed`.
pub proof fn lemma_unprinted_fresh<L>(edges: Seq<(L, u32)>, printed: Set<u32>)
    ensures
        stale(unprinted_targets(edges, printed), printed) == 0,
    decreases edges.len(),
{
    if edges.len() > 0 {
        lemma_unprinted_fresh(edges.drop_last(), printed);
        if !printed.contains(edges.last().1) {
            let before = unprinted_targets(edges.drop_last(), printed);
            let one = seq![edges.last().1];
            lemma_stale_concat(before, one, printed);
            assert(before.push(edges.last().1) =~= before + one);
            assert(one.drop_first() =~= Seq::<u32>::empty());
            assert(stale(one.drop_first(), printed) == 0);
            assert(stale(one, printed) == 0);
        }
    }
}

/// The stale places of two lists, one after the other, add up.
pub proof fn lemma_stale_concat(x: Seq<u32>, y: Seq<u32>, printed: Set<u32>)
    ensures
        stale(x + y, printed) == stale(x, printed) + stale(y, printed),
    decreases x.len(),
{
    if x.len() == 0 {
        assert(x + y =~= y);
    } else {
        lemma_stale_concat(x.drop_first(), y, printed);
        assert((x + y).drop_first() =~= x.drop_first() + y);
    }
}

/// One line less is left to write after each line.
pub proof fn lemma_walk_decreases<L>(
    m: FsaModel<L>,
    pending: Seq<u32>,
    printed: Set<u32>,
    edges: Seq<(L, u32)>,
)
    requires
        pending.len() > 0,
        m.states.finite(),
        m.states.contains(pending[0]),
    ensures
        ({
            let node = pending[0];
            let next = pending.drop_first() + unprinted_targets(edges, printed);
            let left = m.states.difference(printed).len();
            let left_next = m.states.difference(printed.insert(node)).len();
            left_next < left || (left_next == left && stale(next, printed.insert(node)) < stale(
                pending,
                printed,
            ))
        }),
{
    let node = pending[0];
    let more = unprinted_targets(edges, printed);
    let now = m.states.difference(printed);
    let then = m.states.difference(printed.insert(node));
    lemma_len_subset(now, m.states);
    if printed.contains(node) {
        assert(printed.insert(node) =~= printed);
        lemma_unprinted_fresh(edges, printed);
        lemma_stale_concat(pending.drop_first(), more, printed);
    } else {
        assert(then.subset_of(now.remove(node)));
        lemma_len_subset(then, now.remove(node));
    }
}

/// The list that a state's edges were walked in is the list of the dump.
pub proof fn lemma_edge_list<L: Label>(m: FsaModel<L>, s: u32, list: Seq<(L, u32)>)
    requires
        lists_in_order(list, edges_from(m, s)),
    ensures
        edge_list(m, s) == list,
{
    lemma_one_order(edge_list(m, s), list, edges_from(m, s));
}

} // verus!
