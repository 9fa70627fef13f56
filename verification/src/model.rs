use vstd::prelude::*;

verus! {

/// The mathematical content of an automaton.
///
/// `states` are the ids that have an entry in the transition table, `edges`
/// maps a state and a label to the target of the one edge with that label
/// that leaves the state.
#[verifier::reject_recursive_types(L)]
pub struct FsaModel<L> {
    pub starting: u32,
    pub accepting: Set<u32>,
    pub looping: Set<u32>,
    pub states: Set<u32>,
    pub edges: Map<(u32, L), u32>,
    pub largest_state: u32,
}

impl<L> FsaModel<L> {
    /// The table is finite, every edge leaves a state of the table, and no
    /// state of the table lies above the allocation counter.
    pub open spec fn valid(self) -> bool {
        &&& self.states.finite()
        &&& self.edges.dom().finite()
        &&& forall|s: u32, l: L| #[trigger] self.edges.contains_key((s, l)) ==> self.states.contains(s)
        &&& forall|s: u32| #[trigger] self.states.contains(s) ==> s <= self.largest_state
    }

    /// Whether an edge labelled `l` leaves `s`.
    pub open spec fn has_edge(self, s: u32, l: L) -> bool {
        self.edges.contains_key((s, l))
    }

    /// The target of the edge labelled `l` that leaves `s`.
    pub open spec fn target(self, s: u32, l: L) -> u32
        recommends
            self.has_edge(s, l),
    {
        self.edges[(s, l)]
    }

    /// Whether no edge leaves `s`.
    pub open spec fn edgeless(self, s: u32) -> bool {
        forall|l: L| !#[trigger] self.edges.contains_key((s, l))
    }

    /// The automaton with one state: state 0, which is the start and has no
    /// edge; nothing accepts and nothing loops.
    pub open spec fn initial() -> Self {
        FsaModel {
            starting: 0,
            accepting: Set::empty(),
            looping: Set::empty(),
            states: set![0u32],
            edges: Map::empty(),
            largest_state: 0,
        }
    }

    /// The automaton after the allocation of the next id as a state without
    /// edges.
    pub open spec fn with_node(self) -> Self
        recommends
            self.largest_state < u32::MAX,
    {
        let id = (self.largest_state + 1) as u32;
        FsaModel { states: self.states.insert(id), largest_state: id, ..self }
    }

    /// The automaton after an attempt to add the edge `from --label--> to`:
    /// an edge with that label that already leaves `from` stays as it is.
    pub open spec fn with_edge(self, from: u32, label: L, to: u32) -> Self {
        if self.has_edge(from, label) {
            self
        } else {
            FsaModel { edges: self.edges.insert((from, label), to), ..self }
        }
    }
}

} // verus!
