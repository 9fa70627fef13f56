use crate::model::FsaModel;
use vstd::prelude::*;
use vstd::set_lib::lemma_len_subset;

verus! {

impl<L> FsaModel<L> {
    /// A state is useless when it has an entry in the table, does not accept
    /// and has no edge to leave by.
    pub open spec fn useless(self, s: u32) -> bool {
        self.states.contains(s) && !self.accepting.contains(s) && self.edgeless(s)
    }

    /// No state is useless.
    pub open spec fn settled(self) -> bool {
        forall|s: u32| !self.useless(s)
    }

    /// The useless states.
    pub open spec fn useless_states(self) -> Set<u32> {
        Set::new(|s: u32| self.useless(s))
    }

    /// The automaton without the states of `gone`: they leave the table and
    /// the looping set, and so does every edge that starts or ends in one of
    /// them. The accepting set, the start and the allocation counter stay.
    pub open spec fn without(self, gone: Set<u32>) -> Self {
        FsaModel {
            looping: self.looping.difference(gone),
            states: self.states.difference(gone),
            edges: Map::new(
                |k: (u32, L)|
                    self.edges.contains_key(k) && !gone.contains(k.0) && !gone.contains(
                        self.edges[k],
                    ),
                |k: (u32, L)| self.edges[k],
            ),
            ..self
        }
    }

    /// The automaton without the state `s`.
    pub open spec fn without_state(self, s: u32) -> Self {
        self.without(set![s])
    }

    /// The automaton after dead-state pruning: as long as there is a useless
    /// state, all the states that are useless at that moment are removed
    /// together. The removal of a state takes the edges into it along, which
    /// can leave further states without edges: hence the repetition.
    ///
    /// The start is a state like the others. An automaton whose start does not
    /// accept and has no edge that survives ends without its start, and then
    /// accepts nothing.
    pub open spec fn pruned(self) -> Self
        decreases self.states.len(),
    {
        if !self.states.finite() || self.settled() {
            self
        } else {
            proof {
                self.lemma_without_useless_shrinks();
            }
            self.without(self.useless_states()).pruned()
        }
    }

    /// Removing states keeps an automaton valid.
    pub proof fn lemma_without_valid(self, gone: Set<u32>)
        requires
            self.valid(),
        ensures
            self.without(gone).valid(),
    {
        let rest = self.without(gone);
        lemma_len_subset(rest.states, self.states);
        assert(rest.edges.dom().subset_of(self.edges.dom()));
        lemma_len_subset(rest.edges.dom(), self.edges.dom());
    }

    /// Removing first `a` and then `b` is removing both at once.
    pub proof fn lemma_without_twice(self, a: Set<u32>, b: Set<u32>)
        ensures
            self.without(a).without(b) == self.without(a.union(b)),
    {
        let x = self.without(a).without(b);
        let y = self.without(a.union(b));
        assert(x.looping =~= y.looping);
        assert(x.states =~= y.states);
        assert(x.edges =~= y.edges);
    }

    /// While there is a useless state, one round of removal leaves fewer
    /// states.
    pub proof fn lemma_without_useless_shrinks(self)
        requires
            self.states.finite(),
            !self.settled(),
        ensures
            self.without(self.useless_states()).states.finite(),
            self.without(self.useless_states()).states.len() < self.states.len(),
    {
        let s = choose|s: u32| self.useless(s);
        let rest = self.states.difference(self.useless_states());
        assert(self.useless_states().contains(s));
        assert(rest.subset_of(self.states.remove(s)));
        lemma_len_subset(rest, self.states.remove(s));
    }

    /// Pruning leaves no useless state.
    pub proof fn lemma_pruned_settled(self)
        requires
            self.states.finite(),
        ensures
            self.pruned().settled(),
            self.pruned().states.finite(),
        decreases self.states.len(),
    {
        if !self.settled() {
            self.lemma_without_useless_shrinks();
            self.without(self.useless_states()).lemma_pruned_settled();
        }
    }

    /// Pruning keeps an automaton valid.
    pub proof fn lemma_pruned_valid(self)
        requires
            self.valid(),
        ensures
            self.pruned().valid(),
        decreases self.states.len(),
    {
        if !self.settled() {
            self.lemma_without_useless_shrinks();
            self.lemma_without_valid(self.useless_states());
            self.without(self.useless_states()).lemma_pruned_valid();
        }
    }
}

} // verus!
