use crate::model::FsaModel;
use vstd::prelude::*;

verus! {

impl<L> FsaModel<L> {
    /// The state that the edge labelled `l` leads to from `s`, if there is
    /// such an edge. Looping plays no part here.
    pub open spec fn step(self, s: u32, l: L) -> Option<u32> {
        if self.has_edge(s, l) {
            Some(self.target(s, l))
        } else {
            None
        }
    }

    /// The state reached from `s` by reading `w` along edges, if every label
    /// of `w` finds its edge.
    pub open spec fn run_from(self, s: u32, w: Seq<L>) -> Option<u32>
        decreases w.len(),
    {
        if w.len() == 0 {
            Some(s)
        } else {
            match self.run_from(s, w.drop_last()) {
                Some(q) => self.step(q, w.last()),
                None => None,
            }
        }
    }

    /// The state reached from the start by reading `w`.
    pub open spec fn run(self, w: Seq<L>) -> Option<u32> {
        self.run_from(self.starting, w)
    }

    /// Whether the automaton accepts `w`: reading `w` from the start along
    /// edges ends in an accepting state. A looping state stands for nothing
    /// here: it matters only while automata are composed. An id of the
    /// accepting set counts with or without an entry in the table; no edge
    /// leads to an id whose state was removed, so only a removed start can
    /// make a difference.
    pub open spec fn accepts(self, w: Seq<L>) -> bool {
        match self.run(w) {
            Some(q) => self.accepting.contains(q),
            None => false,
        }
    }

    /// The start has an entry in the table, and so has the target of every
    /// edge.
    pub open spec fn closed(self) -> bool {
        &&& self.states.contains(self.starting)
        &&& forall|s: u32, l: L| #[trigger] self.has_edge(s, l) ==> self.states.contains(self.target(s, l))
    }
}

/// One step of two automata that read `l` together from the pair `s`.
///
/// Where both have an edge for `l`, both take it. Where only one has, it takes
/// its edge while the other stays where it is, which it may only in a looping
/// state. Where neither has an edge there is no step, looping or not.
pub open spec fn product_step<L>(a: FsaModel<L>, b: FsaModel<L>, s: (u32, u32), l: L) -> Option<
    (u32, u32),
> {
    if a.has_edge(s.0, l) && b.has_edge(s.1, l) {
        Some((a.target(s.0, l), b.target(s.1, l)))
    } else if a.has_edge(s.0, l) && b.looping.contains(s.1) {
        Some((a.target(s.0, l), s.1))
    } else if b.has_edge(s.1, l) && a.looping.contains(s.0) {
        Some((s.0, b.target(s.1, l)))
    } else {
        None
    }
}

/// The pair of states that two automata reach by reading `w` together from
/// their starts.
pub open spec fn product_run<L>(a: FsaModel<L>, b: FsaModel<L>, w: Seq<L>) -> Option<(u32, u32)>
    decreases w.len(),
{
    if w.len() == 0 {
        Some((a.starting, b.starting))
    } else {
        match product_run(a, b, w.drop_last()) {
            Some(s) => product_step(a, b, s, w.last()),
            None => None,
        }
    }
}

/// Whether both states of a pair accept.
pub open spec fn both_accept<L>(a: FsaModel<L>, b: FsaModel<L>, s: (u32, u32)) -> bool {
    a.accepting.contains(s.0) && b.accepting.contains(s.1)
}

/// Whether both states of a pair loop.
pub open spec fn both_loop<L>(a: FsaModel<L>, b: FsaModel<L>, s: (u32, u32)) -> bool {
    a.looping.contains(s.0) && b.looping.contains(s.1)
}

/// Whether two automata that read `w` together end in a pair of accepting
/// states.
pub open spec fn product_accepts<L>(a: FsaModel<L>, b: FsaModel<L>, w: Seq<L>) -> bool {
    match product_run(a, b, w) {
        Some(s) => both_accept(a, b, s),
        None => false,
    }
}

/// The words that two automata can read together.
pub open spec fn product_words<L>(a: FsaModel<L>, b: FsaModel<L>) -> Set<Seq<L>> {
    Set::new(|w: Seq<L>| product_run(a, b, w) is Some)
}

/// Whether every pair of states that two automata reach together has its two
/// entries in the tables.
pub open spec fn entries<L>(a: FsaModel<L>, b: FsaModel<L>) -> bool {
    forall|w: Seq<L>| #[trigger]
        product_run(a, b, w) is Some ==> a.states.contains(product_run(a, b, w).unwrap().0)
            && b.states.contains(product_run(a, b, w).unwrap().1)
}

/// Whether the words that two automata can read together are at most
/// `limit` and one: so many that ids up to `limit` name them.
pub open spec fn fits<L>(a: FsaModel<L>, b: FsaModel<L>, limit: u32) -> bool {
    product_words(a, b).finite() && product_words(a, b).len() <= limit + 1
}

/// What the composition of two automata asks of them: every pair of states
/// that they reach together has its two entries in the tables, the words they
/// can read together are finitely many, and one id for each of these words
/// fits in the range of the ids.
pub open spec fn composable<L>(a: FsaModel<L>, b: FsaModel<L>) -> bool {
    entries(a, b) && fits(a, b, u32::MAX)
}

/// Reading one more label is one more step.
pub proof fn lemma_product_run_push<L>(a: FsaModel<L>, b: FsaModel<L>, w: Seq<L>, l: L)
    ensures
        product_run(a, b, w.push(l)) == match product_run(a, b, w) {
            Some(s) => product_step(a, b, s, l),
            None => None,
        },
{
    assert(w.push(l).drop_last() =~= w);
}

/// Reading one more label along edges is one more step.
pub proof fn lemma_run_push<L>(m: FsaModel<L>, s: u32, w: Seq<L>, l: L)
    ensures
        m.run_from(s, w.push(l)) == match m.run_from(s, w) {
            Some(q) => m.step(q, l),
            None => None,
        },
{
    assert(w.push(l).drop_last() =~= w);
}

/// In an automaton that is closed, every state that a word leads to has its
/// entry in the table.
pub proof fn lemma_closed_run<L>(m: FsaModel<L>, w: Seq<L>)
    requires
        m.closed(),
        m.run(w) is Some,
    ensures
        m.states.contains(m.run(w).unwrap()),
    decreases w.len(),
{
    if w.len() > 0 {
        lemma_closed_run(m, w.drop_last());
        assert(m.has_edge(m.run(w.drop_last()).unwrap(), w.last()));
    }
}

/// Two automata that are closed reach together only pairs of states that
/// have their entries in the tables.
pub proof fn closed_automata_have_entries<L>(a: FsaModel<L>, b: FsaModel<L>)
    requires
        a.closed(),
        b.closed(),
    ensures
        entries(a, b),
{
    assert forall|w: Seq<L>| #[trigger] product_run(a, b, w) is Some implies a.states.contains(
        product_run(a, b, w).unwrap().0,
    ) && b.states.contains(product_run(a, b, w).unwrap().1) by {
        lemma_closed_product_run(a, b, w);
    }
}

/// Two automata that are closed reach together, by one word, a pair of
/// states that have their entries in the tables.
pub proof fn lemma_closed_product_run<L>(a: FsaModel<L>, b: FsaModel<L>, w: Seq<L>)
    requires
        a.closed(),
        b.closed(),
        product_run(a, b, w) is Some,
    ensures
        a.states.contains(product_run(a, b, w).unwrap().0),
        b.states.contains(product_run(a, b, w).unwrap().1),
    decreases w.len(),
{
    if w.len() > 0 {
        lemma_closed_product_run(a, b, w.drop_last());
        let s = product_run(a, b, w.drop_last()).unwrap();
        if a.has_edge(s.0, w.last()) {
            assert(a.states.contains(a.target(s.0, w.last())));
        }
        if b.has_edge(s.1, w.last()) {
            assert(b.states.contains(b.target(s.1, w.last())));
        }
    }
}

/// A word with a prefix that gets stuck gets stuck.
pub proof fn lemma_run_stuck<L>(m: FsaModel<L>, w: Seq<L>, n: int)
    requires
        0 <= n <= w.len(),
        m.run(w.subrange(0, n)) is None,
    ensures
        m.run(w) is None,
    decreases w.len() - n,
{
    if n < w.len() {
        assert(w.subrange(0, n + 1).drop_last() =~= w.subrange(0, n));
        lemma_run_stuck(m, w, n + 1);
    } else {
        assert(w.subrange(0, n) =~= w);
    }
}

} // verus!
