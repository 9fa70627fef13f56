use crate::construction::Build;
use crate::language::both_accept;
use crate::language::both_loop;
use crate::language::fits;
use crate::language::lemma_product_run_push;
use crate::language::product_accepts;
use crate::language::product_run;
use crate::language::product_step;
use crate::language::product_words;
use crate::model::FsaModel;
use vstd::prelude::*;
use vstd::set_lib::lemma_len_subset;

verus! {

/// A naming of the states of an automaton by words: `node` gives the state
/// that a word leads to, `path` the word that leads to a state.
#[verifier::reject_recursive_types(L)]
pub struct Naming<L> {
    pub node: Map<Seq<L>, u32>,
    pub path: Map<u32, Seq<L>>,
}

/// Whether two automata that read `w` together end in a pair of looping
/// states.
pub open spec fn product_loops<L>(a: FsaModel<L>, b: FsaModel<L>, w: Seq<L>) -> bool {
    match product_run(a, b, w) {
        Some(s) => both_loop(a, b, s),
        None => false,
    }
}

/// Whether `u` is the composition of `a` and `b` laid out as a tree, with
/// `nm` naming its states.
///
/// The states of `u` are, one for one, the words that `a` and `b` can read
/// together, and their ids are the numbers from 0, the start, to the largest
/// id given; the empty word is the start; an edge labelled `l` leads from the
/// state of `w` to the state of `w` followed by `l`, and there are no other
/// edges; a state accepts where the word ends in two accepting states, and
/// loops where it ends in two looping states.
pub open spec fn unfolds<L>(a: FsaModel<L>, b: FsaModel<L>, u: FsaModel<L>, nm: Naming<L>) -> bool {
    &&& u.valid()
    &&& u.starting == 0
    &&& forall|i: u32| #[trigger] u.states.contains(i) <==> i <= u.largest_state
    &&& nm.node.dom() == product_words(a, b)
    &&& nm.path.dom() == u.states
    &&& forall|w: Seq<L>| #[trigger]
        nm.node.contains_key(w) ==> nm.path.contains_key(nm.node[w]) && nm.path[nm.node[w]] == w
    &&& forall|i: u32| #[trigger]
        nm.path.contains_key(i) ==> nm.node.contains_key(nm.path[i]) && nm.node[nm.path[i]] == i
    &&& nm.node.contains_key(Seq::empty())
    &&& nm.node[Seq::empty()] == u.starting
    &&& forall|w: Seq<L>, l: L|
        nm.node.contains_key(w) ==> (#[trigger] u.has_edge(nm.node[w], l)
            <==> nm.node.contains_key(w.push(l)))
    &&& forall|w: Seq<L>, l: L|
        nm.node.contains_key(w) && #[trigger] nm.node.contains_key(w.push(l)) ==> u.target(
            nm.node[w],
            l,
        ) == nm.node[w.push(l)]
    &&& forall|i: u32| #[trigger]
        u.accepting.contains(i) <==> nm.path.contains_key(i) && product_accepts(a, b, nm.path[i])
    &&& forall|i: u32| #[trigger]
        u.looping.contains(i) <==> nm.path.contains_key(i) && product_loops(a, b, nm.path[i])
}

/// Whether state `i` stands for state `s` of the first automaton: the word of
/// `i` leads the first automaton to `s`.
pub open spec fn stands_first<L>(
    a: FsaModel<L>,
    b: FsaModel<L>,
    nm: Naming<L>,
    i: u32,
    s: u32,
) -> bool {
    nm.path.contains_key(i) && product_run(a, b, nm.path[i]) is Some && product_run(
        a,
        b,
        nm.path[i],
    ).unwrap().0 == s
}

/// Whether state `i` stands for state `s` of the second automaton.
pub open spec fn stands_second<L>(
    a: FsaModel<L>,
    b: FsaModel<L>,
    nm: Naming<L>,
    i: u32,
    s: u32,
) -> bool {
    nm.path.contains_key(i) && product_run(a, b, nm.path[i]) is Some && product_run(
        a,
        b,
        nm.path[i],
    ).unwrap().1 == s
}

/// The correspondence map of the first automaton: each of its states that
/// some state of the tree stands for, with all the states that do.
pub open spec fn image_first<L>(a: FsaModel<L>, b: FsaModel<L>, nm: Naming<L>) -> Map<
    u32,
    Set<u32>,
> {
    Map::new(
        |s: u32| exists|i: u32| stands_first(a, b, nm, i, s),
        |s: u32| Set::new(|i: u32| stands_first(a, b, nm, i, s)),
    )
}

/// The correspondence map of the second automaton.
pub open spec fn image_second<L>(a: FsaModel<L>, b: FsaModel<L>, nm: Naming<L>) -> Map<
    u32,
    Set<u32>,
> {
    Map::new(
        |s: u32| exists|i: u32| stands_second(a, b, nm, i, s),
        |s: u32| Set::new(|i: u32| stands_second(a, b, nm, i, s)),
    )
}

/// Whether `r`, `map1` and `map2` are what the composition of `a` and `b`
/// gives: `r` is the composition laid out as a tree and then pruned, and the
/// maps tell for each state of `a` and of `b` which states of the tree stand
/// for it. The maps speak of the tree before pruning, so they may name states
/// that `r` has no more.
pub open spec fn is_intersection<L>(
    a: FsaModel<L>,
    b: FsaModel<L>,
    r: FsaModel<L>,
    map1: Map<u32, Set<u32>>,
    map2: Map<u32, Set<u32>>,
) -> bool {
    exists|u: FsaModel<L>, nm: Naming<L>| #[trigger]
        unfolds(a, b, u, nm) && r == u.pruned() && map1 == image_first(a, b, nm) && map2
            == image_second(a, b, nm)
}

/// Whether the worklist holds, at the place of each state of the tree, the
/// triple of that state: the pair that the word of the state leads to, and
/// the state itself.
pub open spec fn lists_tree<L>(
    a: FsaModel<L>,
    b: FsaModel<L>,
    nm: Naming<L>,
    todo: Seq<(u32, u32, u32)>,
) -> bool {
    &&& forall|i: u32| nm.path.contains_key(i) <==> i < todo.len()
    &&& forall|i: u32|
        i < todo.len() ==> product_run(a, b, nm.path[i]) == Some(
            ((#[trigger] todo[i as int]).0, todo[i as int].1),
        ) && todo[i as int].2 == i
}

/// Whether `r`, `map1`, `map2` and `todo` are what a composition of `a` and
/// `b` ends with: see [`is_intersection`] and [`lists_tree`].
pub open spec fn is_finished<L>(
    a: FsaModel<L>,
    b: FsaModel<L>,
    r: FsaModel<L>,
    map1: Map<u32, Set<u32>>,
    map2: Map<u32, Set<u32>>,
    todo: Seq<(u32, u32, u32)>,
) -> bool {
    exists|u: FsaModel<L>, nm: Naming<L>| #[trigger]
        unfolds(a, b, u, nm) && r == u.pruned() && map1 == image_first(a, b, nm) && map2
            == image_second(a, b, nm) && lists_tree(a, b, nm, todo)
}

/// The pair of source states of the triple at `i`.
pub open spec fn pair_at(todo: Seq<(u32, u32, u32)>, i: int) -> (u32, u32) {
    (todo[i].0, todo[i].1)
}

/// The result starts at 0, is valid, and has the ids from 0 to the largest
/// one given as its states; the worklist has one triple for each state, at
/// the place of the id of the state.
spec fn shaped<L>(bd: Build<L>) -> bool {
    &&& bd.result.starting == 0
    &&& bd.result.valid()
    &&& bd.todo.len() == bd.result.largest_state + 1
    &&& forall|i: u32| #[trigger] bd.result.states.contains(i) <==> i <= bd.result.largest_state
    &&& forall|i: int| 0 <= i < bd.todo.len() ==> (#[trigger] bd.todo[i]).2 == i
}

/// Words and states name each other, one for one; the empty word names the
/// start; the word of a state leads the two automata to the pair of the
/// triple of the state; and the word of a state other than the start ends
/// with the label of an edge into the state, from the state of the rest of
/// the word.
spec fn named<L>(a: FsaModel<L>, b: FsaModel<L>, bd: Build<L>, nm: Naming<L>) -> bool {
    &&& nm.node.dom().finite()
    &&& nm.node.dom().len() == bd.todo.len()
    &&& nm.path.dom() == bd.result.states
    &&& nm.node.contains_key(Seq::empty())
    &&& nm.node[Seq::empty()] == 0
    &&& forall|w: Seq<L>| #[trigger]
        nm.node.contains_key(w) ==> {
            &&& nm.node[w] <= bd.result.largest_state
            &&& nm.path[nm.node[w]] == w
            &&& product_run(a, b, w) == Some(pair_at(bd.todo, nm.node[w] as int))
        }
    &&& forall|w: Seq<L>| #[trigger]
        nm.node.contains_key(w) && w.len() > 0 ==> {
            &&& nm.node.contains_key(w.drop_last())
            &&& bd.result.has_edge(nm.node[w.drop_last()], w.last())
            &&& bd.result.target(nm.node[w.drop_last()], w.last()) == nm.node[w]
        }
    &&& forall|i: u32|
        i <= bd.result.largest_state ==> nm.node.contains_key(#[trigger] nm.path[i])
            && nm.node[nm.path[i]] == i
}

/// Every edge of the result leaves a state that is done with, or the state
/// worked on by a label that is done with, and follows the words; a state
/// that is done with has an edge for every label that its pair can step on,
/// and so has the state worked on for the labels that are done with.
spec fn wired<L>(
    a: FsaModel<L>,
    b: FsaModel<L>,
    bd: Build<L>,
    nm: Naming<L>,
    index: int,
    done: Set<L>,
) -> bool {
    &&& forall|i: u32, l: L| #[trigger]
        bd.result.has_edge(i, l) ==> {
            &&& i < index || (i == index && done.contains(l))
            &&& nm.node.contains_key(nm.path[i].push(l))
            &&& nm.node[nm.path[i].push(l)] == bd.result.target(i, l)
        }
    &&& forall|i: u32, l: L|
        i < index && i <= bd.result.largest_state && (#[trigger] product_step(
            a,
            b,
            pair_at(bd.todo, i as int),
            l,
        )) is Some ==> bd.result.has_edge(i, l)
    &&& forall|l: L|
        0 <= index <= bd.result.largest_state && done.contains(l) && (#[trigger] product_step(
            a,
            b,
            pair_at(bd.todo, index),
            l,
        )) is Some ==> bd.result.has_edge(index as u32, l)
}

/// A state of the result accepts where both states of its pair accept, and
/// loops where both loop; nothing else accepts or loops.
spec fn flagged<L>(a: FsaModel<L>, b: FsaModel<L>, bd: Build<L>) -> bool {
    &&& forall|i: u32| #[trigger]
        bd.result.accepting.contains(i) <==> i <= bd.result.largest_state && both_accept(
            a,
            b,
            pair_at(bd.todo, i as int),
        )
    &&& forall|i: u32| #[trigger]
        bd.result.looping.contains(i) <==> i <= bd.result.largest_state && both_loop(
            a,
            b,
            pair_at(bd.todo, i as int),
        )
}

/// The correspondence map of the first automaton holds, for each of its
/// states that a triple names, the states of the result in these triples, and
/// nothing else.
spec fn charted_first(map: Map<u32, Set<u32>>, todo: Seq<(u32, u32, u32)>) -> bool {
    &&& forall|s: u32| #[trigger] map.contains_key(s) ==> map[s] != Set::<u32>::empty()
    &&& forall|s: u32, i: u32|
        map.contains_key(s) && #[trigger] map[s].contains(i) ==> i < todo.len() && todo[i as int].0
            == s
    &&& forall|i: u32|
        i < todo.len() ==> map.contains_key((#[trigger] todo[i as int]).0) && map[todo[i as int].0].contains(
            i,
        )
}

/// The correspondence map of the second automaton holds, for each of its
/// states that a triple names, the states of the result in these triples, and
/// nothing else.
spec fn charted_second(map: Map<u32, Set<u32>>, todo: Seq<(u32, u32, u32)>) -> bool {
    &&& forall|s: u32| #[trigger] map.contains_key(s) ==> map[s] != Set::<u32>::empty()
    &&& forall|s: u32, i: u32|
        map.contains_key(s) && #[trigger] map[s].contains(i) ==> i < todo.len() && todo[i as int].1
            == s
    &&& forall|i: u32|
        i < todo.len() ==> map.contains_key((#[trigger] todo[i as int]).1) && map[todo[i as int].1].contains(
            i,
        )
}

/// What holds of a composition under way: the first `index` triples of the
/// worklist are done with, and of the triple at `index` the labels of `done`.
///
/// Each state of the result has one triple, at the place of its own id, and
/// one word, which leads the two automata to the pair of that triple. The
/// edges that the result has so far follow the words. A state whose triple is
/// done with has an edge for every label that its pair can step on. Flags and
/// correspondence maps agree with the pairs.
pub closed spec fn growing<L>(
    a: FsaModel<L>,
    b: FsaModel<L>,
    bd: Build<L>,
    nm: Naming<L>,
    index: int,
    done: Set<L>,
) -> bool {
    &&& 0 <= index <= bd.todo.len()
    &&& shaped(bd)
    &&& named(a, b, bd, nm)
    &&& wired(a, b, bd, nm, index, done)
    &&& flagged(a, b, bd)
    &&& charted_first(bd.map1, bd.todo)
    &&& charted_second(bd.map2, bd.todo)
}

impl<L> Naming<L> {
    /// The naming of a tree that has its root alone.
    pub open spec fn root() -> Self {
        Naming { node: map![Seq::<L>::empty() => 0u32], path: map![0u32 => Seq::<L>::empty()] }
    }

    /// The naming after state `id` was made for the word `w`.
    pub open spec fn extended(self, w: Seq<L>, id: u32) -> Self {
        Naming { node: self.node.insert(w, id), path: self.path.insert(id, w) }
    }
}

/// A composition starts in a state of which `growing` holds.
pub proof fn lemma_seed<L>(a: FsaModel<L>, b: FsaModel<L>)
    ensures
        growing(a, b, Build::seed(a, b), Naming::root(), 0, Set::empty()),
{
    let bd = Build::<L>::seed(a, b);
    let nm = Naming::<L>::root();
    assert(bd.result.states.finite());
    assert(bd.result.edges.dom() =~= Set::empty());
    assert(nm.node.dom() =~= set![Seq::<L>::empty()]);
    assert(nm.path.dom() =~= bd.result.states);
    assert forall|w: Seq<L>| #[trigger] nm.node.contains_key(w) implies w.len() == 0 by {}
    assert(bd.todo[0] == (a.starting, b.starting, 0u32));
    assert(shaped(bd));
    assert(named(a, b, bd, nm));
    assert(wired(a, b, bd, nm, 0, Set::empty()));
    assert(flagged(a, b, bd));
    assert(charted_first(bd.map1, bd.todo)) by {
        assert(bd.map1[a.starting].contains(0u32));
    }
    assert(charted_second(bd.map2, bd.todo)) by {
        assert(bd.map2[b.starting].contains(0u32));
    }
}

/// What a composition under way knows of the triple it works on.
pub proof fn lemma_current<L>(
    a: FsaModel<L>,
    b: FsaModel<L>,
    bd: Build<L>,
    nm: Naming<L>,
    index: int,
    done: Set<L>,
)
    requires
        growing(a, b, bd, nm, index, done),
    ensures
        0 <= index <= bd.todo.len(),
        bd.todo.len() == bd.result.largest_state + 1,
        bd.result.valid(),
        index < bd.todo.len() ==> {
            &&& bd.todo[index].2 == index
            &&& bd.result.states.contains(index as u32)
            &&& product_run(a, b, nm.path[index as u32]) == Some(pair_at(bd.todo, index))
        },
{
    if index < bd.todo.len() {
        let r = index as u32;
        let w = nm.path[r];
        assert(nm.node.contains_key(w));
    }
}

/// In a composition under way, a label that is not done with has no edge yet
/// at the state that is worked on, and no state has the word that the label
/// would lead to.
proof fn lemma_fresh<L>(
    a: FsaModel<L>,
    b: FsaModel<L>,
    bd: Build<L>,
    nm: Naming<L>,
    index: int,
    done: Set<L>,
    l: L,
)
    requires
        growing(a, b, bd, nm, index, done),
        index < bd.todo.len(),
        !done.contains(l),
    ensures
        !bd.result.has_edge(index as u32, l),
        !nm.node.contains_key(nm.path[index as u32].push(l)),
{
    let r = index as u32;
    let w = nm.path[r].push(l);
    assert(nm.node.contains_key(nm.path[r]));
    assert(w.drop_last() =~= nm.path[r]);
    assert(w.last() == l);
    if nm.node.contains_key(w) {
        assert(bd.result.has_edge(nm.node[w.drop_last()], w.last()));
        assert(bd.result.has_edge(r, l));
    }
}

/// In a composition under way, a label that the pair worked on can step on
/// and that is not done with stands for a word that has no state yet: the
/// words are more than the states.
pub proof fn lemma_overfull<L>(
    a: FsaModel<L>,
    b: FsaModel<L>,
    bd: Build<L>,
    nm: Naming<L>,
    index: int,
    done: Set<L>,
    l: L,
)
    requires
        growing(a, b, bd, nm, index, done),
        index < bd.todo.len(),
        !done.contains(l),
        product_step(a, b, pair_at(bd.todo, index), l) is Some,
    ensures
        !fits(a, b, bd.result.largest_state),
{
    lemma_fresh(a, b, bd, nm, index, done, l);
    let r = index as u32;
    let w = nm.path[r].push(l);
    assert(nm.node.contains_key(nm.path[r]));
    lemma_product_run_push(a, b, nm.path[r], l);
    assert(product_run(a, b, w) is Some);
    let more = nm.node.dom().insert(w);
    assert(more.subset_of(product_words(a, b)));
    if product_words(a, b).finite() {
        lemma_len_subset(more, product_words(a, b));
    }
}

/// Once every triple is done with, the words are as many as the states.
pub proof fn lemma_full<L>(a: FsaModel<L>, b: FsaModel<L>, bd: Build<L>, nm: Naming<L>)
    requires
        growing(a, b, bd, nm, bd.todo.len() as int, Set::empty()),
    ensures
        fits(a, b, bd.result.largest_state),
{
    lemma_finish(a, b, bd, nm);
}

/// The conditions of a step of a composition under way: the pair that is
/// worked on can step on `l`, to `(e1, e2)`, and `l` is not done with.
spec fn stepping<L>(
    a: FsaModel<L>,
    b: FsaModel<L>,
    bd: Build<L>,
    nm: Naming<L>,
    index: int,
    done: Set<L>,
    l: L,
    e1: u32,
    e2: u32,
) -> bool {
    &&& growing(a, b, bd, nm, index, done)
    &&& index < bd.todo.len()
    &&& bd.result.largest_state < u32::MAX
    &&& !done.contains(l)
    &&& product_step(a, b, pair_at(bd.todo, index), l) == Some((e1, e2))
}

/// The id that the next state gets.
spec fn next_id<L>(bd: Build<L>) -> u32 {
    (bd.result.largest_state + 1) as u32
}

/// What a step of a composition under way does, spelled out.
proof fn lemma_step_shape<L>(
    a: FsaModel<L>,
    b: FsaModel<L>,
    bd: Build<L>,
    nm: Naming<L>,
    index: int,
    done: Set<L>,
    l: L,
    e1: u32,
    e2: u32,
)
    requires
        stepping(a, b, bd, nm, index, done, l, e1, e2),
    ensures
        !bd.result.has_edge(index as u32, l),
        !nm.node.contains_key(nm.path[index as u32].push(l)),
        ({
            let r = index as u32;
            let id = next_id(bd);
            let next = bd.advanced(a, b, l, e1, e2, r);
            &&& next.todo == bd.todo.push((e1, e2, id))
            &&& next.todo.len() == bd.todo.len() + 1
            &&& next.todo[id as int] == (e1, e2, id)
            &&& forall|i: int| 0 <= i < bd.todo.len() ==> #[trigger] next.todo[i] == bd.todo[i]
            &&& next.result.starting == bd.result.starting
            &&& next.result.states == bd.result.states.insert(id)
            &&& next.result.edges == bd.result.edges.insert((r, l), id)
            &&& next.result.largest_state == id
            &&& next.result.accepting == if both_accept(a, b, (e1, e2)) {
                bd.result.accepting.insert(id)
            } else {
                bd.result.accepting
            }
            &&& next.result.looping == if both_loop(a, b, (e1, e2)) {
                bd.result.looping.insert(id)
            } else {
                bd.result.looping
            }
            &&& next.map1 == crate::construction::noted(bd.map1, e1, id)
            &&& next.map2 == crate::construction::noted(bd.map2, e2, id)
            &&& product_run(a, b, nm.path[r].push(l)) == Some((e1, e2))
            &&& nm.node.contains_key(nm.path[r])
            &&& nm.node[nm.path[r]] == r
        }),
{
    lemma_fresh(a, b, bd, nm, index, done, l);
    let r = index as u32;
    let id = next_id(bd);
    let next = bd.advanced(a, b, l, e1, e2, r);
    let triple = (e1, e2, id);
    assert(nm.node.contains_key(nm.path[r]));
    lemma_product_run_push(a, b, nm.path[r], l);
    assert(!bd.todo.contains(triple)) by {
        if bd.todo.contains(triple) {
            let i = choose|i: int| 0 <= i < bd.todo.len() && bd.todo[i] == triple;
            assert(bd.todo[i].2 == i);
        }
    }
}

/// A step keeps the shape of what is built.
proof fn lemma_step_shaped<L>(
    a: FsaModel<L>,
    b: FsaModel<L>,
    bd: Build<L>,
    nm: Naming<L>,
    index: int,
    done: Set<L>,
    l: L,
    e1: u32,
    e2: u32,
)
    requires
        stepping(a, b, bd, nm, index, done, l, e1, e2),
    ensures
        shaped(bd.advanced(a, b, l, e1, e2, index as u32)),
{
    lemma_step_shape(a, b, bd, nm, index, done, l, e1, e2);
    let r = index as u32;
    let next = bd.advanced(a, b, l, e1, e2, r);
    assert(next.result.edges.dom() =~= bd.result.edges.dom().insert((r, l)));
    assert forall|i: int| 0 <= i < next.todo.len() implies (#[trigger] next.todo[i]).2 == i by {
        if i < bd.todo.len() {
            assert(next.todo[i] == bd.todo[i]);
            assert(bd.todo[i].2 == i);
        }
    }
}

/// A step keeps words and states naming each other, with the new word for
/// the new state.
proof fn lemma_step_named<L>(
    a: FsaModel<L>,
    b: FsaModel<L>,
    bd: Build<L>,
    nm: Naming<L>,
    index: int,
    done: Set<L>,
    l: L,
    e1: u32,
    e2: u32,
)
    requires
        stepping(a, b, bd, nm, index, done, l, e1, e2),
    ensures
        named(
            a,
            b,
            bd.advanced(a, b, l, e1, e2, index as u32),
            nm.extended(nm.path[index as u32].push(l), next_id(bd)),
        ),
{
    lemma_step_shape(a, b, bd, nm, index, done, l, e1, e2);
    let r = index as u32;
    let id = next_id(bd);
    let w = nm.path[r].push(l);
    let next = bd.advanced(a, b, l, e1, e2, r);
    let nm2 = nm.extended(w, id);
    assert(w.drop_last() =~= nm.path[r]);
    assert(w.last() == l);
    assert(nm2.node.dom() =~= nm.node.dom().insert(w));
    assert(nm2.path.dom() =~= next.result.states);
    assert forall|v: Seq<L>| #[trigger] nm2.node.contains_key(v) implies {
        &&& nm2.node[v] <= next.result.largest_state
        &&& nm2.path[nm2.node[v]] == v
        &&& product_run(a, b, v) == Some(pair_at(next.todo, nm2.node[v] as int))
    } by {
        if v != w {
            assert(nm.node.contains_key(v));
            assert(next.todo[nm.node[v] as int] == bd.todo[nm.node[v] as int]);
        }
    }
    assert forall|v: Seq<L>| #[trigger] nm2.node.contains_key(v) && v.len() > 0 implies {
        &&& nm2.node.contains_key(v.drop_last())
        &&& next.result.has_edge(nm2.node[v.drop_last()], v.last())
        &&& next.result.target(nm2.node[v.drop_last()], v.last()) == nm2.node[v]
    } by {
        if v != w {
            assert(nm.node.contains_key(v));
            assert(nm.node.contains_key(v.drop_last()));
            assert(bd.result.has_edge(nm.node[v.drop_last()], v.last()));
        }
    }
    assert forall|i: u32| i <= next.result.largest_state implies nm2.node.contains_key(
        #[trigger] nm2.path[i],
    ) && nm2.node[nm2.path[i]] == i by {
        if i != id {
            assert(nm.node.contains_key(nm.path[i]));
        }
    }
}

/// A step keeps the edges following the words, with the label done with.
proof fn lemma_step_wired<L>(
    a: FsaModel<L>,
    b: FsaModel<L>,
    bd: Build<L>,
    nm: Naming<L>,
    index: int,
    done: Set<L>,
    l: L,
    e1: u32,
    e2: u32,
)
    requires
        stepping(a, b, bd, nm, index, done, l, e1, e2),
    ensures
        wired(
            a,
            b,
            bd.advanced(a, b, l, e1, e2, index as u32),
            nm.extended(nm.path[index as u32].push(l), next_id(bd)),
            index,
            done.insert(l),
        ),
{
    lemma_step_shape(a, b, bd, nm, index, done, l, e1, e2);
    let r = index as u32;
    let id = next_id(bd);
    let w = nm.path[r].push(l);
    let next = bd.advanced(a, b, l, e1, e2, r);
    let nm2 = nm.extended(w, id);
    assert forall|i: u32, k: L| #[trigger] next.result.has_edge(i, k) implies {
        &&& i < index || (i == index && done.insert(l).contains(k))
        &&& nm2.node.contains_key(nm2.path[i].push(k))
        &&& nm2.node[nm2.path[i].push(k)] == next.result.target(i, k)
    } by {
        if (i, k) != (r, l) {
            assert(bd.result.has_edge(i, k));
            assert(nm.node.contains_key(nm.path[i].push(k)));
        }
    }
    assert forall|i: u32, k: L|
        i < index && i <= next.result.largest_state && (#[trigger] product_step(
            a,
            b,
            pair_at(next.todo, i as int),
            k,
        )) is Some implies next.result.has_edge(i, k) by {
        assert(next.todo[i as int] == bd.todo[i as int]);
        assert(product_step(a, b, pair_at(bd.todo, i as int), k) is Some);
        assert(bd.result.has_edge(i, k));
    }
    assert forall|k: L|
        0 <= index <= next.result.largest_state && done.insert(l).contains(k) && (
        #[trigger] product_step(a, b, pair_at(next.todo, index), k)) is Some implies next.result.has_edge(
        index as u32,
        k,
    ) by {
        assert(next.todo[index] == bd.todo[index]);
        if k != l {
            assert(product_step(a, b, pair_at(bd.todo, index), k) is Some);
            assert(bd.result.has_edge(r, k));
        }
    }
}

/// A step keeps the flags of the states those of their pairs.
proof fn lemma_step_flagged<L>(
    a: FsaModel<L>,
    b: FsaModel<L>,
    bd: Build<L>,
    nm: Naming<L>,
    index: int,
    done: Set<L>,
    l: L,
    e1: u32,
    e2: u32,
)
    requires
        stepping(a, b, bd, nm, index, done, l, e1, e2),
    ensures
        flagged(a, b, bd.advanced(a, b, l, e1, e2, index as u32)),
{
    lemma_step_shape(a, b, bd, nm, index, done, l, e1, e2);
    let r = index as u32;
    let next = bd.advanced(a, b, l, e1, e2, r);
    assert forall|i: u32| #[trigger]
        next.result.accepting.contains(i) <==> i <= next.result.largest_state && both_accept(
            a,
            b,
            pair_at(next.todo, i as int),
        ) by {
        if i <= bd.result.largest_state {
            assert(next.todo[i as int] == bd.todo[i as int]);
        }
        assert(bd.result.accepting.contains(i) ==> i <= bd.result.largest_state);
    }
    assert forall|i: u32| #[trigger]
        next.result.looping.contains(i) <==> i <= next.result.largest_state && both_loop(
            a,
            b,
            pair_at(next.todo, i as int),
        ) by {
        if i <= bd.result.largest_state {
            assert(next.todo[i as int] == bd.todo[i as int]);
        }
        assert(bd.result.looping.contains(i) ==> i <= bd.result.largest_state);
    }
}

/// A correspondence map stays right when the state of a new triple is noted
/// under the source state of that triple.
proof fn lemma_noted_first(map: Map<u32, Set<u32>>, todo: Seq<(u32, u32, u32)>, t: (u32, u32, u32))
    requires
        charted_first(map, todo),
        t.2 == todo.len(),
    ensures
        charted_first(crate::construction::noted(map, t.0, t.2), todo.push(t)),
{
    let map2 = crate::construction::noted(map, t.0, t.2);
    let todo2 = todo.push(t);
    assert(map2[t.0].contains(t.2));
    assert(todo2[todo.len() as int] == t);
    assert forall|s: u32, i: u32| map2.contains_key(s) && #[trigger] map2[s].contains(i) implies i
        < todo2.len() && todo2[i as int].0 == s by {
        if i != t.2 {
            assert(map.contains_key(s) && map[s].contains(i));
            assert(todo2[i as int] == todo[i as int]);
        }
    }
    assert forall|i: u32| i < todo2.len() implies map2.contains_key(
        (#[trigger] todo2[i as int]).0,
    ) && map2[todo2[i as int].0].contains(i) by {
        if i < todo.len() {
            assert(todo2[i as int] == todo[i as int]);
            assert(map.contains_key(todo[i as int].0));
        }
    }
}

/// The same for the second source state of the triple.
proof fn lemma_noted_second(map: Map<u32, Set<u32>>, todo: Seq<(u32, u32, u32)>, t: (u32, u32, u32))
    requires
        charted_second(map, todo),
        t.2 == todo.len(),
    ensures
        charted_second(crate::construction::noted(map, t.1, t.2), todo.push(t)),
{
    let map2 = crate::construction::noted(map, t.1, t.2);
    let todo2 = todo.push(t);
    assert(map2[t.1].contains(t.2));
    assert(todo2[todo.len() as int] == t);
    assert forall|s: u32, i: u32| map2.contains_key(s) && #[trigger] map2[s].contains(i) implies i
        < todo2.len() && todo2[i as int].1 == s by {
        if i != t.2 {
            assert(map.contains_key(s) && map[s].contains(i));
            assert(todo2[i as int] == todo[i as int]);
        }
    }
    assert forall|i: u32| i < todo2.len() implies map2.contains_key(
        (#[trigger] todo2[i as int]).1,
    ) && map2[todo2[i as int].1].contains(i) by {
        if i < todo.len() {
            assert(todo2[i as int] == todo[i as int]);
            assert(map.contains_key(todo[i as int].1));
        }
    }
}

/// A step of a composition under way, on a label that the pair worked on can
/// step on and that is not done with: a state is made for the new word, and
/// the label is done with.
pub proof fn lemma_advance<L>(
    a: FsaModel<L>,
    b: FsaModel<L>,
    bd: Build<L>,
    nm: Naming<L>,
    index: int,
    done: Set<L>,
    l: L,
    e1: u32,
    e2: u32,
)
    requires
        growing(a, b, bd, nm, index, done),
        index < bd.todo.len(),
        bd.result.largest_state < u32::MAX,
        !done.contains(l),
        product_step(a, b, pair_at(bd.todo, index), l) == Some((e1, e2)),
    ensures
        !bd.result.has_edge(index as u32, l),
        growing(
            a,
            b,
            bd.advanced(a, b, l, e1, e2, index as u32),
            nm.extended(nm.path[index as u32].push(l), (bd.result.largest_state + 1) as u32),
            index,
            done.insert(l),
        ),
{
    lemma_step_shape(a, b, bd, nm, index, done, l, e1, e2);
    lemma_step_shaped(a, b, bd, nm, index, done, l, e1, e2);
    lemma_step_named(a, b, bd, nm, index, done, l, e1, e2);
    lemma_step_wired(a, b, bd, nm, index, done, l, e1, e2);
    lemma_step_flagged(a, b, bd, nm, index, done, l, e1, e2);
    lemma_noted_first(bd.map1, bd.todo, (e1, e2, next_id(bd)));
    lemma_noted_second(bd.map2, bd.todo, (e1, e2, next_id(bd)));
}

/// A label that the pair worked on cannot step on is done with at once.
pub proof fn lemma_skip<L>(
    a: FsaModel<L>,
    b: FsaModel<L>,
    bd: Build<L>,
    nm: Naming<L>,
    index: int,
    done: Set<L>,
    l: L,
)
    requires
        growing(a, b, bd, nm, index, done),
        index < bd.todo.len(),
        product_step(a, b, pair_at(bd.todo, index), l) is None,
    ensures
        growing(a, b, bd, nm, index, done.insert(l)),
{
    assert(wired(a, b, bd, nm, index, done.insert(l)));
}

/// Once every label that one of the two states of the pair has an edge for is
/// done with, the triple is done with.
pub proof fn lemma_next<L>(
    a: FsaModel<L>,
    b: FsaModel<L>,
    bd: Build<L>,
    nm: Naming<L>,
    index: int,
    done: Set<L>,
)
    requires
        growing(a, b, bd, nm, index, done),
        index < bd.todo.len(),
        forall|l: L|
            a.has_edge(bd.todo[index].0, l) || b.has_edge(bd.todo[index].1, l) ==> done.contains(
                l,
            ),
    ensures
        growing(a, b, bd, nm, index + 1, Set::empty()),
{
    assert(wired(a, b, bd, nm, index + 1, Set::empty())) by {
        assert forall|i: u32, l: L|
            i < index + 1 && i <= bd.result.largest_state && (#[trigger] product_step(
                a,
                b,
                pair_at(bd.todo, i as int),
                l,
            )) is Some implies bd.result.has_edge(i, l) by {
            if i == index {
                assert(a.has_edge(bd.todo[index].0, l) || b.has_edge(bd.todo[index].1, l));
                assert(done.contains(l));
            }
        }
    }
}

/// Once every triple is done with, every word that the two automata can read
/// together has its state.
proof fn lemma_covered<L>(a: FsaModel<L>, b: FsaModel<L>, bd: Build<L>, nm: Naming<L>, w: Seq<L>)
    requires
        growing(a, b, bd, nm, bd.todo.len() as int, Set::empty()),
        product_run(a, b, w) is Some,
    ensures
        nm.node.contains_key(w),
    decreases w.len(),
{
    if w.len() > 0 {
        let v = w.drop_last();
        let l = w.last();
        assert(product_run(a, b, v) is Some);
        lemma_covered(a, b, bd, nm, v);
        let i = nm.node[v];
        assert(nm.node.contains_key(v));
        assert(i <= bd.result.largest_state);
        assert(nm.path[i] == v);
        assert(product_run(a, b, v) == Some(pair_at(bd.todo, i as int)));
        assert(product_step(a, b, pair_at(bd.todo, i as int), l) is Some);
        assert(bd.result.has_edge(i, l));
        assert(nm.node.contains_key(nm.path[i].push(l)));
        assert(v.push(l) =~= w);
    } else {
        assert(w =~= Seq::empty());
    }
}

/// Once every triple is done with, the result is the composition laid out as
/// a tree, and the correspondence maps are those of that tree.
pub proof fn lemma_finish<L>(a: FsaModel<L>, b: FsaModel<L>, bd: Build<L>, nm: Naming<L>)
    requires
        growing(a, b, bd, nm, bd.todo.len() as int, Set::empty()),
    ensures
        unfolds(a, b, bd.result, nm),
        bd.map1 == image_first(a, b, nm),
        bd.map2 == image_second(a, b, nm),
        lists_tree(a, b, nm, bd.todo),
{
    let u = bd.result;
    assert forall|i: u32| nm.path.contains_key(i) <==> i < bd.todo.len() by {
        assert(nm.path.contains_key(i) == u.states.contains(i));
    }
    assert forall|i: u32| i < bd.todo.len() implies product_run(a, b, nm.path[i]) == Some(
        ((#[trigger] bd.todo[i as int]).0, bd.todo[i as int].1),
    ) && bd.todo[i as int].2 == i by {
        assert(nm.node.contains_key(nm.path[i]));
    }
    assert forall|w: Seq<L>| product_words(a, b).contains(w) implies nm.node.contains_key(w) by {
        lemma_covered(a, b, bd, nm, w);
    }
    assert(nm.node.dom() =~= product_words(a, b));
    assert forall|w: Seq<L>| #[trigger] nm.node.contains_key(w) implies nm.path.contains_key(
        nm.node[w],
    ) && nm.path[nm.node[w]] == w by {
        assert(u.states.contains(nm.node[w]));
    }
    assert forall|i: u32| #[trigger] nm.path.contains_key(i) implies nm.node.contains_key(
        nm.path[i],
    ) && nm.node[nm.path[i]] == i by {
        assert(u.states.contains(i));
    }
    assert forall|w: Seq<L>, l: L| nm.node.contains_key(w) implies (#[trigger] u.has_edge(
        nm.node[w],
        l,
    ) <==> nm.node.contains_key(w.push(l))) by {
        let x = w.push(l);
        assert(x.drop_last() =~= w);
        assert(x.last() == l);
        if nm.node.contains_key(x) {
            assert(u.has_edge(nm.node[x.drop_last()], x.last()));
        }
    }
    assert forall|w: Seq<L>, l: L|
        nm.node.contains_key(w) && #[trigger] nm.node.contains_key(w.push(l)) implies u.target(
        nm.node[w],
        l,
    ) == nm.node[w.push(l)] by {
        let x = w.push(l);
        assert(x.drop_last() =~= w);
        assert(x.last() == l);
        assert(u.has_edge(nm.node[x.drop_last()], x.last()));
    }
    assert forall|i: u32| #[trigger]
        u.accepting.contains(i) <==> nm.path.contains_key(i) && product_accepts(
            a,
            b,
            nm.path[i],
        ) by {
        if i <= u.largest_state {
            assert(u.states.contains(i));
            assert(nm.node.contains_key(nm.path[i]));
        } else {
            assert(!u.states.contains(i));
        }
    }
    assert forall|i: u32| #[trigger]
        u.looping.contains(i) <==> nm.path.contains_key(i) && product_loops(a, b, nm.path[i]) by {
        if i <= u.largest_state {
            assert(u.states.contains(i));
            assert(nm.node.contains_key(nm.path[i]));
        } else {
            assert(!u.states.contains(i));
        }
    }
    assert forall|i: u32, s: u32| #[trigger]
        stands_first(a, b, nm, i, s) <==> i < bd.todo.len() && bd.todo[i as int].0 == s by {
        if i <= u.largest_state {
            assert(u.states.contains(i));
            assert(nm.node.contains_key(nm.path[i]));
        } else {
            assert(!u.states.contains(i));
        }
    }
    assert forall|i: u32, s: u32| #[trigger]
        stands_second(a, b, nm, i, s) <==> i < bd.todo.len() && bd.todo[i as int].1 == s by {
        if i <= u.largest_state {
            assert(u.states.contains(i));
            assert(nm.node.contains_key(nm.path[i]));
        } else {
            assert(!u.states.contains(i));
        }
    }
    assert(bd.map1 =~= image_first(a, b, nm)) by {
        let img = image_first(a, b, nm);
        assert forall|s: u32| bd.map1.contains_key(s) <==> img.contains_key(s) by {
            if bd.map1.contains_key(s) {
                if forall|i: u32| !bd.map1[s].contains(i) {
                    assert(bd.map1[s] =~= Set::empty());
                }
                let i = choose|i: u32| bd.map1[s].contains(i);
                assert(stands_first(a, b, nm, i, s));
            }
            if img.contains_key(s) {
                let i = choose|i: u32| stands_first(a, b, nm, i, s);
                assert(bd.map1.contains_key(bd.todo[i as int].0));
            }
        }
        assert forall|s: u32| bd.map1.contains_key(s) implies bd.map1[s] =~= img[s] by {
            assert(img.contains_key(s));
            assert forall|i: u32| bd.map1[s].contains(i) <==> img[s].contains(i) by {
                if img[s].contains(i) {
                    assert(stands_first(a, b, nm, i, s));
                    assert(i < bd.todo.len() && bd.todo[i as int].0 == s);
                    assert(bd.map1[bd.todo[i as int].0].contains(i));
                }
                if bd.map1[s].contains(i) {
                    assert(i < bd.todo.len() && bd.todo[i as int].0 == s);
                    assert(stands_first(a, b, nm, i, s));
                }
            }
        }
    }
    assert(bd.map2 =~= image_second(a, b, nm)) by {
        let img = image_second(a, b, nm);
        assert forall|s: u32| bd.map2.contains_key(s) <==> img.contains_key(s) by {
            if bd.map2.contains_key(s) {
                if forall|i: u32| !bd.map2[s].contains(i) {
                    assert(bd.map2[s] =~= Set::empty());
                }
                let i = choose|i: u32| bd.map2[s].contains(i);
                assert(stands_second(a, b, nm, i, s));
            }
            if img.contains_key(s) {
                let i = choose|i: u32| stands_second(a, b, nm, i, s);
                assert(bd.map2.contains_key(bd.todo[i as int].1));
            }
        }
        assert forall|s: u32| bd.map2.contains_key(s) implies bd.map2[s] =~= img[s] by {
            assert(img.contains_key(s));
            assert forall|i: u32| bd.map2[s].contains(i) <==> img[s].contains(i) by {
                if img[s].contains(i) {
                    assert(stands_second(a, b, nm, i, s));
                    assert(i < bd.todo.len() && bd.todo[i as int].1 == s);
                    assert(bd.map2[bd.todo[i as int].1].contains(i));
                }
                if bd.map2[s].contains(i) {
                    assert(i < bd.todo.len() && bd.todo[i as int].1 == s);
                    assert(stands_second(a, b, nm, i, s));
                }
            }
        }
    }
}

} // verus!
