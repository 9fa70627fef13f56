use crate::construction::noted;
use crate::language::composable;
use crate::language::entries;
use crate::language::fits;
use crate::language::product_step;
use crate::machine::IndexMap;
use crate::machine::Machine;
use crate::model::FsaModel;
use crate::unfolding::growing;
use crate::unfolding::is_finished;
use crate::unfolding::is_intersection;
use crate::unfolding::lemma_advance;
use crate::unfolding::lemma_current;
use crate::unfolding::lemma_finish;
use crate::unfolding::lemma_full;
use crate::unfolding::lemma_overfull;
use crate::unfolding::lemma_next;
use crate::unfolding::lemma_seed;
use crate::unfolding::lemma_skip;
use crate::unfolding::pair_at;
use crate::unfolding::Naming;
use crate::walk::edges_of;
use crate::walk::lists_edges;
use crate::walk::seen_label;
use crate::construction::queued;
use crate::construction::Build;
use crate::label::Label;
use crate::machine::index_view;
use crate::machine::FSA;
use crate::language::both_accept;
use crate::language::both_loop;
use crate::language::product_accepts;
use crate::laws::lemma_intersection_language;
use std::collections::BTreeMap;
use std::collections::BTreeSet;
use std::collections::HashMap;
use std::collections::HashSet;
use vstd::prelude::*;

verus! {

/// What a composition has built so far, as a mathematical value.
pub open spec fn build_of<L: Label>(
    result: FSA<L>,
    map1: HashMap<u32, HashSet<u32>>,
    map2: HashMap<u32, HashSet<u32>>,
    todo: Vec<(u32, u32, u32)>,
) -> Build<L> {
    Build { result: result@, map1: index_view(map1), map2: index_view(map2), todo: todo@ }
}

/// Notes in a correspondence map that `value` stands for `key`.
fn note(map: &mut HashMap<u32, HashSet<u32>>, key: u32, value: u32)
    ensures
        index_view(*final(map)) == noted(index_view(*old(map)), key, value),
{
    let found = map.remove(&key);
    let mut set = match found {
        Some(set) => set,
        None => HashSet::new(),
    };
    set.insert(value);
    map.insert(key, set);
    assert(index_view(*map) =~= noted(index_view(*old(map)), key, value));
}

/// Puts a triple on the worklist unless it was put there before.
fn enqueue(
    todo: &mut Vec<(u32, u32, u32)>,
    visited: &mut BTreeSet<(u32, u32, u32)>,
    triplet: (u32, u32, u32),
)
    requires
        old(visited)@ == old(todo)@.to_set(),
    ensures
        final(todo)@ == queued(old(todo)@, triplet),
        final(visited)@ == final(todo)@.to_set(),
{
    if !visited.contains(&triplet) {
        todo.push(triplet);
        visited.insert(triplet);
        proof {
            assert forall|t: (u32, u32, u32)| final(todo)@.contains(t) <==> old(todo)@.contains(t) || t == triplet by {
                if old(todo)@.contains(t) {
                    let i = choose|i: int| 0 <= i < old(todo)@.len() && old(todo)@[i] == t;
                    assert(final(todo)@[i] == t);
                }
                if t == triplet {
                    assert(final(todo)@[old(todo)@.len() as int] == t);
                }
            }
            assert(visited@ =~= todo@.to_set());
        }
    }
}

impl<L: Label> FSA<L> {
    /// Two source states `endpoint1` and `endpoint2` were reached over an
    /// edge of the result that was there before and leads to `next_node`:
    /// `next_node` now stands for this pair too. It keeps a flag only if the
    /// pair has it; both correspondence maps take `next_node` in; the triple
    /// is queued unless it was queued before. `visited` is the set of the
    /// triples that the list holds, and is kept so.
    pub fn intersection_both_and_result_have_edge(
        machine1: &FSA<L>,
        machine2: &FSA<L>,
        result: &mut FSA<L>,
        map1: &mut HashMap<u32, HashSet<u32>>,
        map2: &mut HashMap<u32, HashSet<u32>>,
        todo: &mut Vec<(u32, u32, u32)>,
        visited: &mut BTreeSet<(u32, u32, u32)>,
        endpoint1: &u32,
        endpoint2: &u32,
        next_node: u32,
    )
        requires
            old(visited)@ == old(todo)@.to_set(),
        ensures
            build_of(*final(result), *final(map1), *final(map2), *final(todo)) == build_of(
                *old(result),
                *old(map1),
                *old(map2),
                *old(todo),
            ).merged(machine1@, machine2@, *endpoint1, *endpoint2, next_node),
            final(visited)@ == final(todo)@.to_set(),
            old(result).wf() ==> final(result).wf(),
    {
        if !machine1.accepting.contains(endpoint1) || !machine2.accepting.contains(endpoint2) {
            result.accepting.remove(&next_node);
        }
        if !machine1.looping.contains(endpoint1) || !machine2.looping.contains(endpoint2) {
            result.looping.remove(&next_node);
        }
        note(map1, *endpoint1, next_node);
        note(map2, *endpoint2, next_node);
        let triplet = (*endpoint1, *endpoint2, next_node);
        enqueue(todo, visited, triplet);
    }

    /// Two source states `endpoint1` and `endpoint2` were reached over an
    /// edge of the result that was just made and leads to the new state
    /// `next_node`: it gets each flag that the pair has; both correspondence
    /// maps take `next_node` in; the triple is queued unless it was queued
    /// before. `visited` is the set of the triples that the list holds, and
    /// is kept so.
    pub fn intersection_both_but_not_result_have_edge(
        machine1: &FSA<L>,
        machine2: &FSA<L>,
        result: &mut FSA<L>,
        map1: &mut HashMap<u32, HashSet<u32>>,
        map2: &mut HashMap<u32, HashSet<u32>>,
        todo: &mut Vec<(u32, u32, u32)>,
        visited: &mut BTreeSet<(u32, u32, u32)>,
        endpoint1: &u32,
        endpoint2: &u32,
        next_node: u32,
    )
        requires
            old(visited)@ == old(todo)@.to_set(),
        ensures
            build_of(*final(result), *final(map1), *final(map2), *final(todo)) == build_of(
                *old(result),
                *old(map1),
                *old(map2),
                *old(todo),
            ).opened(machine1@, machine2@, *endpoint1, *endpoint2, next_node),
            final(visited)@ == final(todo)@.to_set(),
            old(result).wf() ==> final(result).wf(),
    {
        if machine1.accepting.contains(endpoint1) && machine2.accepting.contains(endpoint2) {
            result.accepting.insert(next_node);
        }
        if machine1.looping.contains(endpoint1) && machine2.looping.contains(endpoint2) {
            result.looping.insert(next_node);
        }
        note(map1, *endpoint1, next_node);
        note(map2, *endpoint2, next_node);
        let triplet = (*endpoint1, *endpoint2, next_node);
        enqueue(todo, visited, triplet);
    }

    /// Both automata have an edge for `label1`, to `endpoint1` and to
    /// `endpoint2`: the result steps on `label1` from `result_state`, over the
    /// edge that it has there or, where it has none, over a new edge to a new
    /// state, for which an id must be left. `visited` is the set of the
    /// triples that the list holds, and is kept so.
    pub fn intersection_both_have_edge(
        machine1: &FSA<L>,
        machine2: &FSA<L>,
        result: &mut FSA<L>,
        map1: &mut HashMap<u32, HashSet<u32>>,
        map2: &mut HashMap<u32, HashSet<u32>>,
        todo: &mut Vec<(u32, u32, u32)>,
        visited: &mut BTreeSet<(u32, u32, u32)>,
        label1: &L,
        endpoint1: &u32,
        endpoint2: &u32,
        result_state: &u32,
    )
        requires
            old(result).wf(),
            old(result)@.states.contains(*result_state),
            !old(result)@.has_edge(*result_state, *label1) ==> old(result)@.largest_state
                < u32::MAX,
            old(visited)@ == old(todo)@.to_set(),
        ensures
            build_of(*final(result), *final(map1), *final(map2), *final(todo)) == build_of(
                *old(result),
                *old(map1),
                *old(map2),
                *old(todo),
            ).advanced(machine1@, machine2@, *label1, *endpoint1, *endpoint2, *result_state),
            final(visited)@ == final(todo)@.to_set(),
            final(result).wf(),
    {
        match result.edge(*result_state, label1) {
            Some(next_node) => {
                FSA::intersection_both_and_result_have_edge(
                    machine1,
                    machine2,
                    result,
                    map1,
                    map2,
                    todo,
                    visited,
                    endpoint1,
                    endpoint2,
                    next_node,
                );
            },
            None => {
                let next_node = result.add_node();
                result.add_edge(*result_state, label1, next_node);
                FSA::intersection_both_but_not_result_have_edge(
                    machine1,
                    machine2,
                    result,
                    map1,
                    map2,
                    todo,
                    visited,
                    endpoint1,
                    endpoint2,
                    next_node,
                );
            },
        }
    }

    /// Only the first automaton has an edge for `label1`, to `endpoint1`. If
    /// the second loops at `next_state2`, it stays there while the first takes
    /// its edge, and the result steps as in
    /// [`FSA::intersection_both_have_edge`] with `next_state2` as the second
    /// target. If it does not loop there, the label is dropped: nothing
    /// changes.
    pub fn intersection_only_first_has_edge(
        machine1: &FSA<L>,
        machine2: &FSA<L>,
        result: &mut FSA<L>,
        map1: &mut HashMap<u32, HashSet<u32>>,
        map2: &mut HashMap<u32, HashSet<u32>>,
        todo: &mut Vec<(u32, u32, u32)>,
        visited: &mut BTreeSet<(u32, u32, u32)>,
        label1: &L,
        endpoint1: &u32,
        next_state2: u32,
        result_state: u32,
    )
        requires
            old(result).wf(),
            old(result)@.states.contains(result_state),
            machine2@.looping.contains(next_state2) && !old(result)@.has_edge(
                result_state,
                *label1,
            ) ==> old(result)@.largest_state < u32::MAX,
            old(visited)@ == old(todo)@.to_set(),
        ensures
            build_of(*final(result), *final(map1), *final(map2), *final(todo)) == build_of(
                *old(result),
                *old(map1),
                *old(map2),
                *old(todo),
            ).advanced_first(
                machine1@,
                machine2@,
                *label1,
                *endpoint1,
                next_state2,
                result_state,
            ),
            final(visited)@ == final(todo)@.to_set(),
            final(result).wf(),
    {
        if machine2.looping.contains(&next_state2) {
            FSA::intersection_both_have_edge(
                machine1,
                machine2,
                result,
                map1,
                map2,
                todo,
                visited,
                label1,
                endpoint1,
                &next_state2,
                &result_state,
            );
        }
    }

    /// Only the second automaton has an edge for `label2`, to `endpoint2`. If
    /// the first loops at `next_state1`, it stays there while the second takes
    /// its edge, and the result steps as in
    /// [`FSA::intersection_both_have_edge`] with `next_state1` as the first
    /// target. If it does not loop there, the label is dropped: nothing
    /// changes.
    pub fn intersection_only_second_has_edge(
        machine1: &FSA<L>,
        machine2: &FSA<L>,
        result: &mut FSA<L>,
        map1: &mut HashMap<u32, HashSet<u32>>,
        map2: &mut HashMap<u32, HashSet<u32>>,
        todo: &mut Vec<(u32, u32, u32)>,
        visited: &mut BTreeSet<(u32, u32, u32)>,
        label2: &L,
        next_state1: u32,
        endpoint2: &u32,
        result_state: u32,
    )
        requires
            old(result).wf(),
            old(result)@.states.contains(result_state),
            machine1@.looping.contains(next_state1) && !old(result)@.has_edge(
                result_state,
                *label2,
            ) ==> old(result)@.largest_state < u32::MAX,
            old(visited)@ == old(todo)@.to_set(),
        ensures
            build_of(*final(result), *final(map1), *final(map2), *final(todo)) == build_of(
                *old(result),
                *old(map1),
                *old(map2),
                *old(todo),
            ).advanced_second(
                machine1@,
                machine2@,
                *label2,
                next_state1,
                *endpoint2,
                result_state,
            ),
            final(visited)@ == final(todo)@.to_set(),
            final(result).wf(),
    {
        if machine1.looping.contains(&next_state1) {
            FSA::intersection_both_have_edge(
                machine1,
                machine2,
                result,
                map1,
                map2,
                todo,
                visited,
                label2,
                &next_state1,
                endpoint2,
                &result_state,
            );
        }
    }

    /// What a composition starts from: a result with its start alone, which
    /// accepts if both starts accept and loops if both loop; the maps, in
    /// which each start corresponds to the start of the result; and the list
    /// with the triple of the starts.
    pub fn seed(machine1: &FSA<L>, machine2: &FSA<L>) -> (out: (
        FSA<L>,
        HashMap<u32, HashSet<u32>>,
        HashMap<u32, HashSet<u32>>,
        Vec<(u32, u32, u32)>,
    ))
        ensures
            build_of(out.0, out.1, out.2, out.3) == Build::seed(machine1@, machine2@),
    {
        let mut result: FSA<L> = FSA::new();
        let mut map1: HashMap<u32, HashSet<u32>> = HashMap::new();
        let mut map2: HashMap<u32, HashSet<u32>> = HashMap::new();
        let mut first: HashSet<u32> = HashSet::new();
        first.insert(result.starting);
        map1.insert(machine1.starting, first);
        let mut second: HashSet<u32> = HashSet::new();
        second.insert(result.starting);
        map2.insert(machine2.starting, second);
        if machine1.accepting.contains(&machine1.starting) && machine2.accepting.contains(
            &machine2.starting,
        ) {
            result.accepting.insert(result.starting);
        }
        if machine1.looping.contains(&machine1.starting) && machine2.looping.contains(
            &machine2.starting,
        ) {
            result.looping.insert(result.starting);
        }
        let todo = vec![(machine1.starting, machine2.starting, result.starting)];
        proof {
            let seed = Build::seed(machine1@, machine2@);
            assert(result@.accepting =~= seed.result.accepting);
            assert(result@.looping =~= seed.result.looping);
            assert(index_view(map1) =~= seed.map1);
            assert(index_view(map2) =~= seed.map2);
            assert(todo@ =~= seed.todo);
        }
        (result, map1, map2, todo)
    }

    /// The composition of two automata as [`Machine::intersection`] gives it,
    /// if every pair of states that the automata reach together has its
    /// entries and ids up to `limit` are enough, and nothing if not: for two
    /// automata of which it is not known how many words they can read
    /// together, or whether they are finitely many.
    pub fn intersection_within(machine1: &FSA<L>, machine2: &FSA<L>, limit: u32) -> (out: Option<
        (FSA<L>, HashMap<u32, HashSet<u32>>, HashMap<u32, HashSet<u32>>),
    >)
        ensures
            out is Some <==> entries(machine1@, machine2@) && fits(machine1@, machine2@, limit),
            match out {
                Some(found) => {
                    &&& found.0.wf()
                    &&& is_intersection(
                        machine1@,
                        machine2@,
                        found.0@,
                        index_view(found.1),
                        index_view(found.2),
                    )
                    &&& forall|w: Seq<L>| #[trigger]
                        found.0@.accepts(w) <==> product_accepts(machine1@, machine2@, w)
                },
                None => true,
            },
    {
        let (mut result, mut map1, mut map2, mut todo) = FSA::seed(machine1, machine2);
        let done = FSA::intersection_loop(
            machine1,
            machine2,
            &mut result,
            &mut map1,
            &mut map2,
            &mut todo,
            limit,
        );
        if done {
            proof {
                lemma_intersection_language(
                    machine1@,
                    machine2@,
                    result@,
                    index_view(map1),
                    index_view(map2),
                );
            }
            Some((result, map1, map2))
        } else {
            None
        }
    }

    /// Works the list of triples off and prunes the result, as long as no id
    /// above `limit` is needed; tells whether it was done.
    ///
    /// For each triple `(s1, s2, r)`, every label that `s1` or `s2` has an
    /// edge for is met once: the labels of `s1` first, with the edge of `s2`
    /// where there is one, then the labels that `s2` alone has. New triples
    /// go to the end of the list. When the work is done, the result is the
    /// composition of the two automata laid out as a tree and pruned, the maps
    /// are the correspondence maps of that tree, and the list holds the
    /// triple of each of its states. The work is given up, with nothing said
    /// of what it leaves behind, as soon as it meets a state without an entry
    /// in the table of its automaton, or a word that the two automata can
    /// read together and that asks for an id above `limit`.
    pub fn intersection_loop(
        machine1: &FSA<L>,
        machine2: &FSA<L>,
        result: &mut FSA<L>,
        map1: &mut HashMap<u32, HashSet<u32>>,
        map2: &mut HashMap<u32, HashSet<u32>>,
        todo: &mut Vec<(u32, u32, u32)>,
        limit: u32,
    ) -> (done: bool)
        requires
            build_of(*old(result), *old(map1), *old(map2), *old(todo)) == Build::seed(
                machine1@,
                machine2@,
            ),
        ensures
            done == (entries(machine1@, machine2@) && fits(machine1@, machine2@, limit)),
            done ==> final(result).wf() && is_finished(
                machine1@,
                machine2@,
                final(result)@,
                index_view(*final(map1)),
                index_view(*final(map2)),
                final(todo)@,
            ),
    {
        let ghost a = machine1@;
        let ghost b = machine2@;
        let ghost mut nm = Naming::<L>::root();
        proof {
            L::lawful();
            lemma_seed(a, b);
            assert(todo@[0] == (a.starting, b.starting, 0u32));
            lemma_current(a, b, Build::seed(a, b), nm, 0, Set::empty());
        }
        let mut visited: BTreeSet<(u32, u32, u32)> = BTreeSet::new();
        visited.insert(todo[0]);
        proof {
            assert forall|t: (u32, u32, u32)| todo@.contains(t) <==> t == todo@[0] by {
                if todo@.contains(t) {
                    let i = choose|i: int| 0 <= i < todo@.len() && todo@[i] == t;
                }
            }
            assert(visited@ =~= todo@.to_set());
        }
        let mut index: usize = 0;
        while index < todo.len()
            invariant
                a == machine1@,
                b == machine2@,
                growing(a, b, build_of(*result, *map1, *map2, *todo), nm, index as int, Set::empty()),
                visited@ == todo@.to_set(),
                result.wf(),
                index <= todo.len() == result@.largest_state + 1,
                result@.largest_state <= limit,
                forall|i: int|
                    0 <= i < index ==> a.states.contains((#[trigger] todo@[i]).0)
                        && b.states.contains(todo@[i].1),
            decreases 2 * limit + 1 - result@.largest_state - index,
        {
            let ghost low = result@.largest_state;
            let ghost listed = todo@;
            proof {
                L::lawful();
                lemma_current(
                    a,
                    b,
                    build_of(*result, *map1, *map2, *todo),
                    nm,
                    index as int,
                    Set::empty(),
                );
            }
            let (next_state1, next_state2, result_state) = todo[index];
            let transitions1 = match machine1.transitions.get(&next_state1) {
                Some(transitions1) => transitions1,
                None => {
                    return false;
                },
            };
            let transitions2 = match machine2.transitions.get(&next_state2) {
                Some(transitions2) => transitions2,
                None => {
                    return false;
                },
            };
            let edges1 = edges_of(transitions1);
            let edges2 = edges_of(transitions2);
            let ghost mut done: Set<L> = Set::empty();
            let mut k: usize = 0;
            while k < edges1.len()
                invariant
                    a == machine1@,
                    b == machine2@,
                    low <= result@.largest_state <= limit,
                    k <= edges1.len(),
                    index < listed.len() <= todo.len(),
                    forall|i: int| 0 <= i < listed.len() ==> #[trigger] todo@[i] == listed[i],
                    listed[index as int] == (next_state1, next_state2, result_state),
                    lists_edges(edges1@, transitions1@),
                    forall|l: L| #[trigger]
                        transitions1@.contains_key(l) <==> a.has_edge(next_state1, l),
                    forall|l: L| #[trigger]
                        transitions1@.contains_key(l) ==> transitions1@[l] == a.target(
                            next_state1,
                            l,
                        ),
                    forall|l: L| #[trigger]
                        transitions2@.contains_key(l) <==> b.has_edge(next_state2, l),
                    forall|l: L| #[trigger]
                        transitions2@.contains_key(l) ==> transitions2@[l] == b.target(
                            next_state2,
                            l,
                        ),
                    growing(a, b, build_of(*result, *map1, *map2, *todo), nm, index as int, done),
                    forall|l: L| done.contains(l) <==> seen_label(edges1@, k as int, l),
                    visited@ == todo@.to_set(),
                    result.wf(),
                decreases edges1.len() - k,
            {
                let (label1, endpoint1) = edges1[k];
                let ghost bd = build_of(*result, *map1, *map2, *todo);
                proof {
                    L::lawful();
                    lemma_current(a, b, bd, nm, index as int, done);
                    if done.contains(label1) {
                        let j = choose|j: int| 0 <= j < k && (#[trigger] edges1@[j]).0 == label1;
                        assert(edges1@[j].0 != edges1@[k as int].0);
                    }
                    assert(transitions1@.contains_key(edges1@[k as int].0));
                }
                match transitions2.get(&label1) {
                    Some(endpoint2) => {
                        proof {
                            assert(transitions2@.contains_key(label1));
                            assert(product_step(a, b, pair_at(bd.todo, index as int), label1)
                                == Some((endpoint1, *endpoint2)));
                        }
                        if result.largest_state() >= limit {
                            proof {
                                lemma_overfull(a, b, bd, nm, index as int, done, label1);
                            }
                            return false;
                        }
                        proof {
                            lemma_advance(
                                a,
                                b,
                                bd,
                                nm,
                                index as int,
                                done,
                                label1,
                                endpoint1,
                                *endpoint2,
                            );
                            nm = nm.extended(
                                nm.path[result_state].push(label1),
                                (bd.result.largest_state + 1) as u32,
                            );
                        }
                        FSA::intersection_both_have_edge(
                            machine1,
                            machine2,
                            result,
                            map1,
                            map2,
                            todo,
                            &mut visited,
                            &label1,
                            &endpoint1,
                            endpoint2,
                            &result_state,
                        );
                    },
                    None => {
                        proof {
                            assert(!transitions2@.contains_key(label1));
                        }
                        if machine2.looping.contains(&next_state2) && result.largest_state()
                            >= limit {
                            proof {
                                assert(product_step(a, b, pair_at(bd.todo, index as int), label1)
                                    == Some((endpoint1, next_state2)));
                                lemma_overfull(a, b, bd, nm, index as int, done, label1);
                            }
                            return false;
                        }
                        proof {
                            if b.looping.contains(next_state2) {
                                assert(product_step(a, b, pair_at(bd.todo, index as int), label1)
                                    == Some((endpoint1, next_state2)));
                                lemma_advance(
                                    a,
                                    b,
                                    bd,
                                    nm,
                                    index as int,
                                    done,
                                    label1,
                                    endpoint1,
                                    next_state2,
                                );
                                nm = nm.extended(
                                    nm.path[result_state].push(label1),
                                    (bd.result.largest_state + 1) as u32,
                                );
                            } else {
                                assert(product_step(a, b, pair_at(bd.todo, index as int), label1)
                                    is None);
                                lemma_skip(a, b, bd, nm, index as int, done, label1);
                            }
                        }
                        FSA::intersection_only_first_has_edge(
                            machine1,
                            machine2,
                            result,
                            map1,
                            map2,
                            todo,
                            &mut visited,
                            &label1,
                            &endpoint1,
                            next_state2,
                            result_state,
                        );
                    },
                }
                proof {
                    let before = done;
                    done = done.insert(label1);
                    assert forall|i: int| 0 <= i < listed.len() implies #[trigger] todo@[i]
                        == listed[i] by {
                        assert(bd.todo[i] == listed[i]);
                        if todo@ != bd.todo {
                            assert(todo@ == bd.todo.push(todo@[todo@.len() - 1]));
                        }
                    }
                    assert forall|l: L| done.contains(l) <==> seen_label(edges1@, k + 1, l) by {
                        if seen_label(edges1@, k + 1, l) {
                            let j = choose|j: int| 0 <= j < k + 1 && (#[trigger] edges1@[j]).0 == l;
                            if j < k {
                                assert(seen_label(edges1@, k as int, l));
                            }
                        }
                        if before.contains(l) {
                            let j = choose|j: int| 0 <= j < k && (#[trigger] edges1@[j]).0 == l;
                            assert(0 <= j < k + 1 && edges1@[j].0 == l);
                        }
                        if l == label1 {
                            assert(edges1@[k as int].0 == l);
                        }
                    }
                }
                k += 1;
            }
            proof {
                assert forall|l: L| done.contains(l) <==> a.has_edge(next_state1, l) by {
                    if a.has_edge(next_state1, l) {
                        assert(transitions1@.contains_key(l));
                        let j = choose|j: int| 0 <= j < edges1@.len() && (#[trigger] edges1@[j]).0 == l;
                        assert(seen_label(edges1@, k as int, l));
                    }
                    if done.contains(l) {
                        let j = choose|j: int| 0 <= j < k && (#[trigger] edges1@[j]).0 == l;
                        assert(transitions1@.contains_key(edges1@[j].0));
                    }
                }
            }
            let mut k: usize = 0;
            while k < edges2.len()
                invariant
                    a == machine1@,
                    b == machine2@,
                    low <= result@.largest_state <= limit,
                    k <= edges2.len(),
                    index < listed.len() <= todo.len(),
                    forall|i: int| 0 <= i < listed.len() ==> #[trigger] todo@[i] == listed[i],
                    listed[index as int] == (next_state1, next_state2, result_state),
                    lists_edges(edges2@, transitions2@),
                    forall|l: L| #[trigger]
                        transitions1@.contains_key(l) <==> a.has_edge(next_state1, l),
                    forall|l: L| #[trigger]
                        transitions2@.contains_key(l) <==> b.has_edge(next_state2, l),
                    forall|l: L| #[trigger]
                        transitions2@.contains_key(l) ==> transitions2@[l] == b.target(
                            next_state2,
                            l,
                        ),
                    growing(a, b, build_of(*result, *map1, *map2, *todo), nm, index as int, done),
                    forall|l: L|
                        done.contains(l) <==> a.has_edge(next_state1, l) || seen_label(
                            edges2@,
                            k as int,
                            l,
                        ),
                    visited@ == todo@.to_set(),
                    result.wf(),
                decreases edges2.len() - k,
            {
                let (label2, endpoint2) = edges2[k];
                let ghost bd = build_of(*result, *map1, *map2, *todo);
                let ghost before = done;
                proof {
                    L::lawful();
                    lemma_current(a, b, bd, nm, index as int, done);
                    assert(transitions2@.contains_key(edges2@[k as int].0));
                }
                if !transitions1.contains_key(&label2) {
                    proof {
                        if seen_label(edges2@, k as int, label2) {
                            let j = choose|j: int| 0 <= j < k && (#[trigger] edges2@[j]).0 == label2;
                            assert(edges2@[j].0 != edges2@[k as int].0);
                        }
                        assert(!done.contains(label2));
                    }
                    if machine1.looping.contains(&next_state1) && result.largest_state() >= limit {
                        proof {
                            assert(product_step(a, b, pair_at(bd.todo, index as int), label2)
                                == Some((next_state1, endpoint2)));
                            lemma_overfull(a, b, bd, nm, index as int, done, label2);
                        }
                        return false;
                    }
                    proof {
                        if a.looping.contains(next_state1) {
                            assert(product_step(a, b, pair_at(bd.todo, index as int), label2)
                                == Some((next_state1, endpoint2)));
                            lemma_advance(
                                a,
                                b,
                                bd,
                                nm,
                                index as int,
                                done,
                                label2,
                                next_state1,
                                endpoint2,
                            );
                            nm = nm.extended(
                                nm.path[result_state].push(label2),
                                (bd.result.largest_state + 1) as u32,
                            );
                        } else {
                            assert(product_step(a, b, pair_at(bd.todo, index as int), label2)
                                is None);
                            lemma_skip(a, b, bd, nm, index as int, done, label2);
                        }
                        done = done.insert(label2);
                    }
                    FSA::intersection_only_second_has_edge(
                        machine1,
                        machine2,
                        result,
                        map1,
                        map2,
                        todo,
                        &mut visited,
                        &label2,
                        next_state1,
                        &endpoint2,
                        result_state,
                    );
                }
                proof {
                    assert forall|i: int| 0 <= i < listed.len() implies #[trigger] todo@[i]
                        == listed[i] by {
                        assert(bd.todo[i] == listed[i]);
                        if todo@ != bd.todo {
                            assert(todo@ == bd.todo.push(todo@[todo@.len() - 1]));
                        }
                    }
                    assert(done =~= before.insert(label2));
                    assert forall|l: L|
                        done.contains(l) <==> a.has_edge(next_state1, l) || seen_label(
                            edges2@,
                            k + 1,
                            l,
                        ) by {
                        if seen_label(edges2@, k + 1, l) {
                            let j = choose|j: int| 0 <= j < k + 1 && (#[trigger] edges2@[j]).0 == l;
                            if j < k {
                                assert(seen_label(edges2@, k as int, l));
                            }
                        }
                        if seen_label(edges2@, k as int, l) {
                            let j = choose|j: int| 0 <= j < k && (#[trigger] edges2@[j]).0 == l;
                            assert(0 <= j < k + 1 && edges2@[j].0 == l);
                        }
                        if l == label2 {
                            assert(edges2@[k as int].0 == l);
                        }
                    }
                }
                k += 1;
            }
            proof {
                let bd = build_of(*result, *map1, *map2, *todo);
                assert forall|l: L|
                    a.has_edge(bd.todo[index as int].0, l) || b.has_edge(
                        bd.todo[index as int].1,
                        l,
                    ) implies done.contains(l) by {
                    if b.has_edge(next_state2, l) {
                        assert(transitions2@.contains_key(l));
                        let j = choose|j: int| 0 <= j < edges2@.len() && (#[trigger] edges2@[j]).0 == l;
                        assert(seen_label(edges2@, k as int, l));
                    }
                }
                lemma_next(a, b, bd, nm, index as int, done);
                lemma_current(a, b, bd, nm, index + 1, Set::empty());
            }
            index += 1;
        }
        proof {
            let bd = build_of(*result, *map1, *map2, *todo);
            lemma_finish(a, b, bd, nm);
            lemma_full(a, b, bd, nm);
            assert forall|w: Seq<L>| #[trigger] crate::language::product_run(a, b, w) is Some implies a.states.contains(
                crate::language::product_run(a, b, w).unwrap().0,
            ) && b.states.contains(crate::language::product_run(a, b, w).unwrap().1) by {
                assert(crate::language::product_words(a, b).contains(w));
                assert(nm.node.contains_key(w));
                let i = nm.node[w];
                assert(nm.path[i] == w);
                assert(a.states.contains(todo@[i as int].0));
            }
        }
        let ghost tree = result@;
        result.leave_out_useless_states();
        proof {
            assert(crate::unfolding::unfolds(a, b, tree, nm));
        }
        true
    }
}

impl<L: Label> Machine<L, HashMap<u32, HashSet<u32>>> for FSA<L> {
    /// Every pair of states that the two automata reach together has its two
    /// entries, the words that they can read together are finitely many, and
    /// one id for each fits: see [`composable`].
    open spec fn composable(machine1: &Self, machine2: &Self) -> bool {
        composable(machine1@, machine2@)
    }

    /// The automaton with the one state 0, which is its start, without edges,
    /// accepting states or looping states.
    fn new() -> (machine: Self)
        ensures
            machine.wf(),
            machine@ == FsaModel::<L>::initial(),
    {
        let mut transitions: HashMap<u32, BTreeMap<L, u32>> = HashMap::new();
        transitions.insert(0, BTreeMap::new());
        let machine = FSA {
            starting: 0,
            accepting: HashSet::new(),
            looping: HashSet::new(),
            transitions,
            largest_state: 0,
        };
        proof {
            assert(machine@.states =~= FsaModel::<L>::initial().states);
            assert(machine@.edges =~= FsaModel::<L>::initial().edges);
        }
        machine
    }

    /// The composition of two automata, which accepts what both accept, with
    /// the correspondence map of each.
    ///
    /// The two automata read a word together: on a label that both have an
    /// edge for, both take their edge; on a label that one alone has an edge
    /// for, that one takes it and the other stays where it is, if it loops
    /// there; in every other case the word cannot be read. The result has a
    /// state for each word that can be read, accepting where both automata
    /// end in accepting states and looping where both end in looping states,
    /// and is then pruned. The maps tell for each state of either automaton
    /// which states of the result, before pruning, stand for it.
    fn intersection(machine1: &FSA<L>, machine2: &FSA<L>) -> (out: (
        FSA<L>,
        HashMap<u32, HashSet<u32>>,
        HashMap<u32, HashSet<u32>>,
    ))
        ensures
            out.0.wf(),
            is_intersection(machine1@, machine2@, out.0@, index_view(out.1), index_view(out.2)),
            forall|w: Seq<L>| #[trigger]
                out.0@.accepts(w) <==> product_accepts(machine1@, machine2@, w),
    {
        let (mut result, mut map1, mut map2, mut todo) = FSA::seed(machine1, machine2);
        let done = FSA::intersection_loop(
            machine1,
            machine2,
            &mut result,
            &mut map1,
            &mut map2,
            &mut todo,
            u32::MAX,
        );
        proof {
            assert(done);
            lemma_intersection_language(
                machine1@,
                machine2@,
                result@,
                index_view(map1),
                index_view(map2),
            );
        }
        (result, map1, map2)
    }
}

} // verus!
