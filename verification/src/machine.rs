use crate::label::Label;
use crate::model::FsaModel;
use crate::walk::edges_of;
use crate::walk::keys_of;
use crate::walk::lists_edges;
use crate::walk::lists_keys;
use crate::walk::seen;
use crate::walk::seen_label;
use std::collections::BTreeMap;
use std::collections::HashMap;
use std::collections::HashSet;
use vstd::prelude::*;

verus! {

/// A correspondence map: from a state of one automaton to the set of states
/// of another that stand for it.
pub trait IndexMap: Sized {
    /// The map in which nothing corresponds to anything.
    fn new() -> Self;
}

impl IndexMap for HashMap<u32, HashSet<u32>> {
    /// The map without entries.
    fn new() -> (m: Self)
        ensures
            m@ == Map::<u32, HashSet<u32>>::empty(),
    {
        HashMap::new()
    }
}

/// A kind of automaton that can be made empty and composed with another of
/// its kind, which gives the composition and one correspondence map for each
/// of the two.
pub trait Machine<L: Label, M: IndexMap>: Sized {
    /// What [`Machine::intersection`] asks of the two automata.
    spec fn composable(machine1: &Self, machine2: &Self) -> bool;

    /// An automaton with its start alone.
    fn new() -> Self;

    /// The composition of two automata, with the correspondence map of the
    /// first and that of the second.
    fn intersection(machine1: &Self, machine2: &Self) -> (Self, M, M)
        requires
            Self::composable(machine1, machine2),
    ;
}

/// A correspondence map as a mathematical value.
pub open spec fn index_view(m: HashMap<u32, HashSet<u32>>) -> Map<u32, Set<u32>> {
    Map::new(|k: u32| m@.contains_key(k), |k: u32| m@[k]@)
}

/// A finite automaton whose edges are a partial function of state and label.
///
/// The explicit edges never form a cycle in the automata this library is
/// meant for. A state of `looping` stands, while two automata are composed and
/// only then, for a state with a self-loop on every label it has no edge for.
pub struct FSA<L: Label> {
    /// The start.
    pub starting: u32,
    /// The states that accept.
    pub accepting: HashSet<u32>,
    /// The states that loop while automata are composed.
    pub looping: HashSet<u32>,
    /// For each state that has an entry, its edges: at most one for a label.
    pub(crate) transitions: HashMap<u32, BTreeMap<L, u32>>,
    /// The largest id that was ever given to a state; ids are not given
    /// twice.
    pub(crate) largest_state: u32,
}

impl<L: Label> FSA<L> {
    /// The automaton as a mathematical value.
    pub open(crate) spec fn view(&self) -> FsaModel<L> {
        FsaModel {
            starting: self.starting,
            accepting: self.accepting@,
            looping: self.looping@,
            states: self.transitions@.dom(),
            edges: Map::new(
                |k: (u32, L)|
                    self.transitions@.contains_key(k.0) && self.transitions@[k.0]@.contains_key(
                        k.1,
                    ),
                |k: (u32, L)| self.transitions@[k.0]@[k.1],
            ),
            largest_state: self.largest_state,
        }
    }

    /// Well-formedness: see [`FsaModel::valid`].
    pub open spec fn wf(&self) -> bool {
        self@.valid()
    }

    /// Makes `state` the start.
    pub fn set_starting(&mut self, state: u32)
        ensures
            final(self)@ == (FsaModel { starting: state, ..old(self)@ }),
    {
        self.starting = state;
    }

    /// Puts `state` into the accepting set, or takes it out.
    pub fn set_accepting(&mut self, state: u32, accepting: bool)
        ensures
            final(self)@ == (FsaModel {
                accepting: if accepting {
                    old(self)@.accepting.insert(state)
                } else {
                    old(self)@.accepting.remove(state)
                },
                ..old(self)@
            }),
    {
        if accepting {
            self.accepting.insert(state);
        } else {
            self.accepting.remove(&state);
        }
    }

    /// Puts `state` into the looping set, or takes it out.
    pub fn set_looping(&mut self, state: u32, looping: bool)
        ensures
            final(self)@ == (FsaModel {
                looping: if looping {
                    old(self)@.looping.insert(state)
                } else {
                    old(self)@.looping.remove(state)
                },
                ..old(self)@
            }),
    {
        if looping {
            self.looping.insert(state);
        } else {
            self.looping.remove(&state);
        }
    }

    /// The transition table: for each state that has an entry, the edges that
    /// leave it, by label.
    pub fn transitions(&self) -> (table: &HashMap<u32, BTreeMap<L, u32>>)
        ensures
            table@.dom() == self@.states,
            forall|s: u32, l: L|
                #![trigger table@[s]@.contains_key(l)]
                #![trigger self@.has_edge(s, l)]
                self@.has_edge(s, l) <==> table@.contains_key(s) && table@[s]@.contains_key(l),
            forall|s: u32, l: L|
                #![trigger table@[s]@[l]]
                #![trigger self@.target(s, l)]
                self@.has_edge(s, l) ==> table@[s]@[l] == self@.target(s, l),
    {
        &self.transitions
    }

    /// The largest id that was ever given to a state.
    pub fn largest_state(&self) -> (id: u32)
        ensures
            id == self@.largest_state,
    {
        self.largest_state
    }

    /// The target of the edge labelled `label` that leaves `from`, if there is
    /// such an edge.
    pub fn edge(&self, from: u32, label: &L) -> (target: Option<u32>)
        ensures
            target == self@.step(from, *label),
    {
        proof {
            L::lawful();
        }
        match self.transitions.get(&from) {
            Some(trs) => match trs.get(label) {
                Some(to) => Some(*to),
                None => None,
            },
            None => None,
        }
    }

    /// Whether the automaton accepts `word`: see [`FsaModel::accepts`].
    pub fn accepts(&self, word: &Vec<L>) -> (b: bool)
        ensures
            b == self@.accepts(word@),
    {
        let mut state = self.starting;
        let mut i: usize = 0;
        proof {
            assert(word@.subrange(0, 0) =~= Seq::empty());
        }
        while i < word.len()
            invariant
                i <= word.len(),
                self@.run(word@.subrange(0, i as int)) == Some(state),
            decreases word.len() - i,
        {
            proof {
                assert(word@.subrange(0, i + 1).drop_last() =~= word@.subrange(0, i as int));
            }
            match self.edge(state, &word[i]) {
                Some(target) => {
                    state = target;
                },
                None => {
                    proof {
                        crate::language::lemma_run_stuck(self@, word@, i + 1);
                    }
                    return false;
                },
            }
            i += 1;
        }
        proof {
            assert(word@.subrange(0, i as int) =~= word@);
        }
        self.accepting.contains(&state)
    }

    /// Allocates a state: the id after the largest one ever given out, with no
    /// edge. The accepting and looping sets stay as they are.
    pub fn add_node(&mut self) -> (state: u32)
        requires
            old(self).wf(),
            old(self)@.largest_state < u32::MAX,
        ensures
            final(self).wf(),
            final(self)@ == old(self)@.with_node(),
            state == old(self)@.largest_state + 1,
            !old(self)@.states.contains(state),
    {
        let state = self.largest_state + 1;
        self.largest_state = state;
        self.transitions.insert(state, BTreeMap::new());
        assert(self@.edges =~= old(self)@.edges);
        state
    }

    /// Adds the edge `from_node --label--> to_node` unless an edge with that
    /// label already leaves `from_node`: the first edge written stays.
    pub fn add_edge(&mut self, from_node: u32, label: &L, to_node: u32)
        requires
            old(self).wf(),
            old(self)@.states.contains(from_node),
        ensures
            final(self).wf(),
            final(self)@ == old(self)@.with_edge(from_node, *label, to_node),
    {
        proof {
            L::lawful();
        }
        let found = self.transitions.remove(&from_node);
        match found {
            Some(trs) => {
                let mut trs = trs;
                if !trs.contains_key(label) {
                    trs.insert(*label, to_node);
                }
                self.transitions.insert(from_node, trs);
            },
            None => {},
        }
        assert(self@.states =~= old(self)@.states);
        assert(self@.edges =~= old(self)@.with_edge(from_node, *label, to_node).edges);
    }

    /// Removes a state: its entry in the table with the edges that leave it,
    /// its membership in the looping set, and every edge elsewhere that leads
    /// to it. The accepting set is left alone, so the id of an accepting state
    /// outlives the state there.
    pub fn remove_state(&mut self, state: &u32)
        requires
            old(self).wf(),
        ensures
            final(self).wf(),
            final(self)@ == old(self)@.without_state(*state),
    {
        proof {
            L::lawful();
        }
        let gone = *state;
        self.looping.remove(state);
        self.transitions.remove(state);
        let ghost mid = self.transitions@;
        let sources = keys_of(&self.transitions);
        let mut i: usize = 0;
        while i < sources.len()
            invariant
                i <= sources.len(),
                lists_keys(sources@, mid),
                self.transitions@.dom() == mid.dom(),
                self.starting == old(self).starting,
                self.accepting == old(self).accepting,
                self.looping@ == old(self).looping@.remove(gone),
                self.largest_state == old(self).largest_state,
                forall|f: u32, l: L|
                    mid.contains_key(f) ==> (#[trigger] self.transitions@[f]@.contains_key(l)
                        <==> mid[f]@.contains_key(l) && (mid[f]@[l] != gone || !seen(
                        sources@,
                        i as int,
                        f,
                    ))),
                forall|f: u32, l: L|
                    mid.contains_key(f) && #[trigger] self.transitions@[f]@.contains_key(l)
                        ==> self.transitions@[f]@[l] == mid[f]@[l],
            decreases sources.len() - i,
        {
            let from = sources[i];
            let ghost before = self.transitions@;
            let found = self.transitions.remove(&from);
            match found {
                Some(trs) => {
                    let mut trs = trs;
                    let ghost orig = trs@;
                    let edges = edges_of(&trs);
                    let mut j: usize = 0;
                    while j < edges.len()
                        invariant
                            j <= edges.len(),
                            lists_edges(edges@, orig),
                            forall|l: L| #[trigger]
                                trs@.contains_key(l) <==> orig.contains_key(l) && (orig[l] != gone
                                    || !seen_label(edges@, j as int, l)),
                            forall|l: L| #[trigger] trs@.contains_key(l) ==> trs@[l] == orig[l],
                        decreases edges.len() - j,
                    {
                        proof {
                            L::lawful();
                        }
                        let (label, endpoint) = edges[j];
                        if endpoint == gone {
                            trs.remove(&label);
                        }
                        proof {
                            assert forall|l: L|
                                seen_label(edges@, j + 1, l) <==> seen_label(edges@, j as int, l)
                                    || l == label by {
                                if seen_label(edges@, j + 1, l) {
                                    let jj = choose|jj: int| 0 <= jj < j + 1 && edges@[jj].0 == l;
                                    if jj < j {
                                        assert(seen_label(edges@, j as int, l));
                                    }
                                }
                                if seen_label(edges@, j as int, l) {
                                    let jj = choose|jj: int| 0 <= jj < j && edges@[jj].0 == l;
                                    assert(0 <= jj < j + 1 && edges@[jj].0 == l);
                                }
                                if l == label {
                                    assert(edges@[j as int].0 == l);
                                }
                            }
                        }
                        j += 1;
                    }
                    proof {
                        assert forall|l: L| orig.contains_key(l) implies seen_label(
                            edges@,
                            edges@.len() as int,
                            l,
                        ) by {
                            let jj = choose|jj: int| 0 <= jj < edges@.len() && edges@[jj].0 == l;
                            assert(edges@[jj].0 == l);
                        }
                    }
                    self.transitions.insert(from, trs);
                },
                None => {},
            }
            proof {
                assert(self.transitions@.dom() =~= mid.dom());
                assert forall|f: u32|
                    seen(sources@, i + 1, f) <==> seen(sources@, i as int, f) || f == from by {
                    if seen(sources@, i + 1, f) {
                        let jj = choose|jj: int| 0 <= jj < i + 1 && sources@[jj] == f;
                        if jj < i {
                            assert(seen(sources@, i as int, f));
                        }
                    }
                    if seen(sources@, i as int, f) {
                        let jj = choose|jj: int| 0 <= jj < i && sources@[jj] == f;
                        assert(0 <= jj < i + 1 && sources@[jj] == f);
                    }
                    if f == from {
                        assert(sources@[i as int] == f);
                    }
                }
                if seen(sources@, i as int, from) {
                    let jj = choose|jj: int| 0 <= jj < i && sources@[jj] == from;
                    assert(sources@[jj] == sources@[i as int]);
                }
            }
            i += 1;
        }
        proof {
            let goal = old(self)@.without_state(gone);
            assert forall|f: u32| mid.contains_key(f) implies seen(
                sources@,
                sources@.len() as int,
                f,
            ) by {
                assert(sources@.contains(f));
                let jj = choose|jj: int| 0 <= jj < sources@.len() && sources@[jj] == f;
                assert(sources@[jj] == f);
            }
            assert(self@.looping =~= goal.looping);
            assert(self@.states =~= goal.states);
            assert(self@.edges =~= goal.edges);
            old(self)@.lemma_without_valid(set![gone]);
        }
    }

    /// Dead-state pruning: removes the states that neither accept nor have an
    /// edge, and goes on for as long as that leaves further such states.
    ///
    /// This is no minimisation: a state that cannot be reached from the start
    /// stays as long as it accepts or has an edge. The start enjoys no
    /// protection: it is removed like any other state once it is useless.
    pub fn leave_out_useless_states(&mut self)
        requires
            old(self).wf(),
        ensures
            final(self).wf(),
            final(self)@ == old(self)@.pruned(),
    {
        loop
            invariant
                self.wf(),
                self@.pruned() == old(self)@.pruned(),
            ensures
                self@.settled(),
            decreases self@.states.len(),
        {
            let ghost start = self@;
            let mut useless: Vec<u32> = Vec::new();
            let ids = keys_of(&self.transitions);
            let mut i: usize = 0;
            while i < ids.len()
                invariant
                    i <= ids.len(),
                    lists_keys(ids@, self.transitions@),
                    self@ == start,
                    forall|a: int, b: int| 0 <= a < b < useless@.len() ==> useless@[a] != useless@[b],
                    forall|k: u32| #[trigger]
                        seen(useless@, useless@.len() as int, k) ==> start.useless(k) && seen(
                            ids@,
                            i as int,
                            k,
                        ),
                    forall|k: u32|
                        start.useless(k) && #[trigger] seen(ids@, i as int, k) ==> seen(
                            useless@,
                            useless@.len() as int,
                            k,
                        ),
                decreases ids.len() - i,
            {
                let state = ids[i];
                let ghost before = useless@;
                let mut dead = false;
                if !self.accepting.contains(&state) {
                    match self.transitions.get(&state) {
                        Some(trs) => {
                            if trs.is_empty() {
                                dead = true;
                            }
                            proof {
                                if start.edgeless(state) {
                                    assert forall|l: L| !trs@.contains_key(l) by {
                                        assert(!start.edges.contains_key((state, l)));
                                    }
                                    assert(trs@.dom() =~= Set::empty());
                                }
                                if trs@.is_empty() {
                                    assert forall|l: L| !#[trigger] start.edges.contains_key((state, l)) by {
                                        assert(!trs@.dom().contains(l));
                                    }
                                }
                            }
                        },
                        None => {},
                    }
                }
                assert(dead == start.useless(state));
                if dead {
                    useless.push(state);
                }
                proof {
                    assert forall|k: u32|
                        seen(ids@, i + 1, k) <==> seen(ids@, i as int, k) || k == state by {
                        if seen(ids@, i + 1, k) {
                            let jj = choose|jj: int| 0 <= jj < i + 1 && ids@[jj] == k;
                            if jj < i {
                                assert(seen(ids@, i as int, k));
                            }
                        }
                        if seen(ids@, i as int, k) {
                            let jj = choose|jj: int| 0 <= jj < i && ids@[jj] == k;
                            assert(0 <= jj < i + 1 && ids@[jj] == k);
                        }
                        if k == state {
                            assert(ids@[i as int] == k);
                        }
                    }
                    if seen(ids@, i as int, state) {
                        let jj = choose|jj: int| 0 <= jj < i && ids@[jj] == state;
                        assert(ids@[jj] == ids@[i as int]);
                    }
                    assert forall|k: u32|
                        #![trigger seen(useless@, useless@.len() as int, k)]
                        #![trigger seen(ids@, i + 1, k)]
                        seen(useless@, useless@.len() as int, k) <==> start.useless(k) && seen(
                            ids@,
                            i + 1,
                            k,
                        ) by {
                        if seen(useless@, useless@.len() as int, k) {
                            let jj = choose|jj: int| 0 <= jj < useless@.len() && useless@[jj] == k;
                            if jj < before.len() {
                                assert(before[jj] == k);
                                assert(seen(before, before.len() as int, k));
                            }
                        }
                        if start.useless(k) && seen(ids@, i + 1, k) {
                            if k == state {
                                assert(useless@[useless@.len() - 1] == k);
                            } else {
                                assert(seen(ids@, i as int, k));
                                assert(seen(before, before.len() as int, k));
                                let jj = choose|jj: int| 0 <= jj < before.len() && before[jj] == k;
                                assert(useless@[jj] == k);
                            }
                        }
                    }
                    assert forall|a: int, b: int| 0 <= a < b < useless@.len() implies useless@[a]
                        != useless@[b] by {
                        if dead && b == useless@.len() - 1 {
                            if useless@[a] == state {
                                assert(before[a] == state);
                                assert(seen(before, before.len() as int, state));
                            }
                        }
                    }
                }
                i += 1;
            }
            proof {
                assert forall|k: u32| start.useless(k) implies seen(
                    useless@,
                    useless@.len() as int,
                    k,
                ) by {
                    assert(ids@.contains(k));
                    let jj = choose|jj: int| 0 <= jj < ids@.len() && ids@[jj] == k;
                    assert(ids@[jj] == k);
                    assert(seen(ids@, i as int, k));
                }
            }
            if useless.len() == 0 {
                proof {
                    assert forall|k: u32| !start.useless(k) by {
                        if start.useless(k) {
                            let jj = choose|jj: int| 0 <= jj < useless@.len() && useless@[jj] == k;
                        }
                    }
                }
                break ;
            }
            let mut j: usize = 0;
            proof {
                let none = Set::new(|k: u32| seen(useless@, 0, k));
                assert(start.without(none).looping =~= start.looping);
                assert(start.without(none).states =~= start.states);
                assert(start.without(none).edges =~= start.edges);
            }
            while j < useless.len()
                invariant
                    j <= useless.len(),
                    self.wf(),
                    self@ == start.without(Set::new(|k: u32| seen(useless@, j as int, k))),
                decreases useless.len() - j,
            {
                let ghost done = Set::new(|k: u32| seen(useless@, j as int, k));
                let ghost next = Set::new(|k: u32| seen(useless@, j + 1, k));
                let target = useless[j];
                self.remove_state(&target);
                proof {
                    start.lemma_without_twice(done, set![target]);
                    assert forall|k: u32| next.contains(k) <==> done.contains(k) || k == target by {
                        if seen(useless@, j + 1, k) {
                            let jj = choose|jj: int| 0 <= jj < j + 1 && useless@[jj] == k;
                            if jj < j {
                                assert(seen(useless@, j as int, k));
                            }
                        }
                        if seen(useless@, j as int, k) {
                            let jj = choose|jj: int| 0 <= jj < j && useless@[jj] == k;
                            assert(0 <= jj < j + 1 && useless@[jj] == k);
                        }
                        if k == target {
                            assert(useless@[j as int] == k);
                        }
                    }
                    assert(next =~= done.union(set![target]));
                }
                j += 1;
            }
            proof {
                let all = Set::new(|k: u32| seen(useless@, useless@.len() as int, k));
                assert(all =~= start.useless_states());
                assert(seen(useless@, useless@.len() as int, useless@[0]));
                assert(start.useless(useless@[0]));
                start.lemma_without_useless_shrinks();
            }
        }
        proof {
            assert(self@.pruned() == self@);
        }
    }
}

} // verus!
