use crate::language::both_accept;
use crate::language::both_loop;
use crate::language::product_run;
use crate::language::product_step;
use crate::model::FsaModel;
use vstd::prelude::*;

verus! {

/// A correspondence map after the note that `rn` stands for `s`.
pub open spec fn noted(map: Map<u32, Set<u32>>, s: u32, rn: u32) -> Map<u32, Set<u32>> {
    map.insert(
        s,
        if map.contains_key(s) {
            map[s].insert(rn)
        } else {
            set![rn]
        },
    )
}

/// A worklist after the request to work on `t`: a triple that the list
/// already holds is not taken twice.
pub open spec fn queued(todo: Seq<(u32, u32, u32)>, t: (u32, u32, u32)) -> Seq<(u32, u32, u32)> {
    if todo.contains(t) {
        todo
    } else {
        todo.push(t)
    }
}

/// What a composition of two automata has built so far: the result, the two
/// correspondence maps, and the worklist of triples `(s1, s2, r)`, each of
/// which says that state `r` of the result stands for being in `s1` of the
/// first automaton and in `s2` of the second at once.
#[verifier::reject_recursive_types(L)]
pub struct Build<L> {
    pub result: FsaModel<L>,
    pub map1: Map<u32, Set<u32>>,
    pub map2: Map<u32, Set<u32>>,
    pub todo: Seq<(u32, u32, u32)>,
}

impl<L> Build<L> {
    /// Where a composition starts: the result has its start and nothing else,
    /// the start accepts if both starts accept and loops if both loop, each
    /// start corresponds to it, and the one triple is that of the starts.
    pub open spec fn seed(a: FsaModel<L>, b: FsaModel<L>) -> Self {
        let s = (a.starting, b.starting);
        let fresh = FsaModel::<L>::initial();
        Build {
            result: FsaModel {
                accepting: if both_accept(a, b, s) {
                    set![0u32]
                } else {
                    Set::empty()
                },
                looping: if both_loop(a, b, s) {
                    set![0u32]
                } else {
                    Set::empty()
                },
                ..fresh
            },
            map1: map![a.starting => set![0u32]],
            map2: map![b.starting => set![0u32]],
            todo: seq![(a.starting, b.starting, 0u32)],
        }
    }

    /// The correspondence and the worklist after `rn` was found to stand for
    /// the pair `(e1, e2)`.
    pub open spec fn registered(self, e1: u32, e2: u32, rn: u32) -> Self {
        Build {
            map1: noted(self.map1, e1, rn),
            map2: noted(self.map2, e2, rn),
            todo: queued(self.todo, (e1, e2, rn)),
            ..self
        }
    }

    /// The state after a state `rn` that the result already had was found to
    /// stand for the pair `(e1, e2)` as well: `rn` goes on accepting only if
    /// both of the pair accept, and goes on looping only if both loop.
    pub open spec fn merged(self, a: FsaModel<L>, b: FsaModel<L>, e1: u32, e2: u32, rn: u32) -> Self {
        Build {
            result: FsaModel {
                accepting: if both_accept(a, b, (e1, e2)) {
                    self.result.accepting
                } else {
                    self.result.accepting.remove(rn)
                },
                looping: if both_loop(a, b, (e1, e2)) {
                    self.result.looping
                } else {
                    self.result.looping.remove(rn)
                },
                ..self.result
            },
            ..self
        }.registered(e1, e2, rn)
    }

    /// The state after a state `rn` that was just made was found to stand for
    /// the pair `(e1, e2)`: `rn` accepts if both of the pair accept and loops
    /// if both loop.
    pub open spec fn opened(self, a: FsaModel<L>, b: FsaModel<L>, e1: u32, e2: u32, rn: u32) -> Self {
        Build {
            result: FsaModel {
                accepting: if both_accept(a, b, (e1, e2)) {
                    self.result.accepting.insert(rn)
                } else {
                    self.result.accepting
                },
                looping: if both_loop(a, b, (e1, e2)) {
                    self.result.looping.insert(rn)
                } else {
                    self.result.looping
                },
                ..self.result
            },
            ..self
        }.registered(e1, e2, rn)
    }

    /// The state after the step on `label` from state `r` of the result to
    /// the state that stands for the pair `(e1, e2)`: the target of the edge
    /// for `label` that `r` already has, or else a new state behind a new
    /// edge.
    pub open spec fn advanced(
        self,
        a: FsaModel<L>,
        b: FsaModel<L>,
        label: L,
        e1: u32,
        e2: u32,
        r: u32,
    ) -> Self {
        if self.result.has_edge(r, label) {
            self.merged(a, b, e1, e2, self.result.target(r, label))
        } else {
            let rn = (self.result.largest_state + 1) as u32;
            Build { result: self.result.with_node().with_edge(r, label, rn), ..self }.opened(
                a,
                b,
                e1,
                e2,
                rn,
            )
        }
    }

    /// The state after a label that only the first automaton has an edge for,
    /// to `e1`, was met in the pair `(_, s2)`: a step as above with the
    /// second automaton staying at `s2` if `s2` loops, and nothing otherwise.
    pub open spec fn advanced_first(
        self,
        a: FsaModel<L>,
        b: FsaModel<L>,
        label: L,
        e1: u32,
        s2: u32,
        r: u32,
    ) -> Self {
        if b.looping.contains(s2) {
            self.advanced(a, b, label, e1, s2, r)
        } else {
            self
        }
    }

    /// The state after a label that only the second automaton has an edge
    /// for, to `e2`, was met in the pair `(s1, _)`: a step as above with the
    /// first automaton staying at `s1` if `s1` loops, and nothing otherwise.
    pub open spec fn advanced_second(
        self,
        a: FsaModel<L>,
        b: FsaModel<L>,
        label: L,
        s1: u32,
        e2: u32,
        r: u32,
    ) -> Self {
        if a.looping.contains(s1) {
            self.advanced(a, b, label, s1, e2, r)
        } else {
            self
        }
    }
}

} // verus!
