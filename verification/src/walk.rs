use crate::label::Label;
use crate::order::lists_in_order;
use crate::order::precedes;
use std::collections::BTreeMap;
use std::collections::HashMap;
use vstd::prelude::*;
use vstd::std_specs::btree::increasing_seq;
use vstd::std_specs::iter::IteratorSpec;

verus! {

/// Whether `list` holds each key of `table` once and nothing else.
pub open spec fn lists_keys<V>(list: Seq<u32>, table: Map<u32, V>) -> bool {
    &&& list.no_duplicates()
    &&& forall|i: int| 0 <= i < list.len() ==> table.contains_key(#[trigger] list[i])
    &&& forall|k: u32| table.contains_key(k) ==> list.contains(k)
}

/// Whether `list` holds each pair of `edges`, label and target, once and
/// nothing else.
pub open spec fn lists_edges<L>(list: Seq<(L, u32)>, edges: Map<L, u32>) -> bool {
    &&& forall|i: int, j: int| 0 <= i < j < list.len() ==> list[i].0 != list[j].0
    &&& forall|i: int|
        0 <= i < list.len() ==> edges.contains_key(#[trigger] list[i].0) && edges[list[i].0]
            == list[i].1
    &&& forall|l: L| edges.contains_key(l) ==> exists|i: int| 0 <= i < list.len() && #[trigger] list[i].0 == l
}

/// Whether `x` is among the first `upto` items of `list`.
pub open spec fn seen(list: Seq<u32>, upto: int, x: u32) -> bool {
    exists|j: int| 0 <= j < upto && list[j] == x
}

/// Whether an edge labelled `l` is among the first `upto` items of `list`.
pub open spec fn seen_label<L>(list: Seq<(L, u32)>, upto: int, l: L) -> bool {
    exists|j: int| 0 <= j < upto && (#[trigger] list[j]).0 == l
}

/// The keys of a state table, each once.
pub fn keys_of<V>(table: &HashMap<u32, V>) -> (list: Vec<u32>)
    ensures
        lists_keys(list@, table@),
{
    let mut list: Vec<u32> = Vec::new();
    let ghost s: Seq<&u32> = table.keys().remaining();
    for k in it: table.keys()
        invariant
            it.seq() == s,
            list@.len() == it.index(),
            forall|i: int| 0 <= i < list@.len() ==> list@[i] == *#[trigger] s[i],
    {
        list.push(*k);
    }
    proof {
        assert forall|k: u32| table@.contains_key(k) implies list@.contains(k) by {
            assert(s.unref().to_set().contains(k));
            let i = choose|i: int| 0 <= i < s.unref().len() && s.unref()[i] == k;
            assert(list@[i] == k);
        }
        assert forall|i: int| 0 <= i < list@.len() implies table@.contains_key(#[trigger] list@[i]) by {
            assert(s.unref()[i] == list@[i]);
            assert(s.unref().to_set().contains(s.unref()[i]));
        }
        assert forall|i: int, j: int| 0 <= i < list@.len() && 0 <= j < list@.len() && i != j implies list@[i] != list@[j] by {
            assert(s[i] != s[j]);
        }
    }
    list
}

/// The edges of one state, each once, in the order of their labels.
pub fn edges_of<L: Label>(edges: &BTreeMap<L, u32>) -> (list: Vec<(L, u32)>)
    ensures
        lists_edges(list@, edges@),
        lists_in_order(list@, edges@),
{
    proof {
        L::lawful();
    }
    let mut list: Vec<(L, u32)> = Vec::new();
    let ghost s: Seq<(&L, &u32)> = edges.iter().remaining();
    for e in it: edges.iter()
        invariant
            it.seq() == s,
            s.no_duplicates(),
            increasing_seq(s.map_values(|kv: (&L, &u32)| *kv.0)),
            list@.len() == it.index(),
            forall|i: int|
                0 <= i < list@.len() ==> (#[trigger] list@[i]).0 == *s[i].0 && list@[i].1 == *s[i].1,
    {
        list.push((*e.0, *e.1));
    }
    proof {
        assert forall|l: L| edges@.contains_key(l) implies exists|i: int|
            0 <= i < list@.len() && #[trigger] list@[i].0 == l by {
            assert(s.contains((&l, &edges@[l])));
            let i = choose|i: int| 0 <= i < s.len() && s[i] == (&l, &edges@[l]);
            assert(list@[i].0 == l);
        }
        assert forall|i: int, j: int| 0 <= i < j < list@.len() implies list@[i].0 != list@[j].0 by {
            assert(edges@.contains_key(*s[i].0) && edges@[*s[i].0] == *s[i].1);
            assert(edges@.contains_key(*s[j].0) && edges@[*s[j].0] == *s[j].1);
            assert(list@[i].0 == *s[i].0);
            assert(list@[j].0 == *s[j].0);
            if list@[i].0 == list@[j].0 {
                assert(s[i] == s[j]);
            }
        }
        assert forall|i: int| 0 <= i < list@.len() implies edges@.contains_key(
            #[trigger] list@[i].0,
        ) && edges@[list@[i].0] == list@[i].1 by {
            assert(edges@.contains_key(*s[i].0) && edges@[*s[i].0] == *s[i].1);
        }
        let labels = s.map_values(|kv: (&L, &u32)| *kv.0);
        assert forall|i: int, j: int| 0 <= i < j < list@.len() implies precedes(
            list@[i].0,
            list@[j].0,
        ) by {
            assert(labels[i] == list@[i].0);
            assert(labels[j] == list@[j].0);
        }
    }
    list
}

} // verus!
