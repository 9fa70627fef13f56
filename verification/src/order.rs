use crate::label::Label;
use core::cmp::Ordering;
use vstd::laws_cmp::obeys_cmp_ord;
use vstd::laws_cmp::obeys_cmp_partial_ord;
use vstd::laws_cmp::obeys_partial_cmp_spec_properties;
use vstd::prelude::*;
use vstd::std_specs::cmp::OrdSpec;
use vstd::std_specs::cmp::PartialOrdSpec;

verus! {

/// Whether label `a` comes before label `b` in the order of the labels.
pub open spec fn precedes<L: Label>(a: L, b: L) -> bool {
    a.cmp_spec(&b) is Less
}

/// Whether the edges of a list come in the order of their labels, each label
/// before the next.
pub open spec fn ascending<L: Label>(list: Seq<(L, u32)>) -> bool {
    forall|i: int, j: int| 0 <= i < j < list.len() ==> precedes(list[i].0, list[j].0)
}

/// Whether `list` holds the edges of the map `edges`, each once, in the order
/// of the labels.
pub open spec fn lists_in_order<L: Label>(list: Seq<(L, u32)>, edges: Map<L, u32>) -> bool {
    &&& ascending(list)
    &&& forall|i: int|
        0 <= i < list.len() ==> edges.contains_key(#[trigger] list[i].0) && edges[list[i].0]
            == list[i].1
    &&& forall|l: L|
        edges.contains_key(l) ==> exists|i: int| 0 <= i < list.len() && #[trigger] list[i].0 == l
}

/// No label comes before itself, and of two labels at most one comes before
/// the other.
pub proof fn lemma_precedes_one_way<L: Label>(a: L, b: L)
    ensures
        !(precedes(a, b) && precedes(b, a)),
        !precedes(a, a),
{
    L::lawful();
    reveal(obeys_cmp_ord);
    reveal(obeys_cmp_partial_ord);
    reveal(obeys_partial_cmp_spec_properties);
    if precedes(a, b) && precedes(b, a) {
        assert(a.partial_cmp_spec(&b) == Some(Ordering::Less));
        assert(b.partial_cmp_spec(&a) == Some(Ordering::Greater));
        assert(b.partial_cmp_spec(&a) == Some(Ordering::Less));
    }
    if precedes(a, a) {
        assert(a.partial_cmp_spec(&a) == Some(Ordering::Less));
        assert(a.partial_cmp_spec(&a) == Some(Ordering::Greater));
    }
}

/// Two lists that hold the edges of one map in the order of the labels agree
/// in their first `n` places.
proof fn lemma_same_start<L: Label>(
    x: Seq<(L, u32)>,
    y: Seq<(L, u32)>,
    edges: Map<L, u32>,
    n: int,
)
    requires
        lists_in_order(x, edges),
        lists_in_order(y, edges),
        0 <= n <= x.len(),
        n <= y.len(),
    ensures
        forall|k: int| 0 <= k < n ==> x[k] == y[k],
    decreases n,
{
    if n > 0 {
        let i = n - 1;
        lemma_same_start(x, y, edges, i);
        let a = x[i].0;
        let b = y[i].0;
        assert(edges.contains_key(a));
        assert(edges.contains_key(b));
        let j = choose|j: int| 0 <= j < y.len() && (#[trigger] y[j]).0 == a;
        let k = choose|k: int| 0 <= k < x.len() && (#[trigger] x[k]).0 == b;
        if j < i {
            assert(x[j] == y[j]);
            lemma_precedes_one_way(x[j].0, x[i].0);
        }
        if k < i {
            assert(x[k] == y[k]);
            lemma_precedes_one_way(y[k].0, y[i].0);
        }
        lemma_precedes_one_way(a, b);
        if j > i {
            assert(precedes(y[i].0, y[j].0));
        }
        if k > i {
            assert(precedes(x[i].0, x[k].0));
        }
        assert(a == b);
    }
}

/// The edges of a map can be listed in the order of the labels in one way
/// only.
pub proof fn lemma_one_order<L: Label>(x: Seq<(L, u32)>, y: Seq<(L, u32)>, edges: Map<L, u32>)
    requires
        lists_in_order(x, edges),
        lists_in_order(y, edges),
    ensures
        x == y,
{
    if x.len() <= y.len() {
        lemma_same_start(x, y, edges, x.len() as int);
        if x.len() < y.len() {
            let extra = y[x.len() as int].0;
            assert(edges.contains_key(extra));
            let k = choose|k: int| 0 <= k < x.len() && (#[trigger] x[k]).0 == extra;
            assert(x[k] == y[k]);
            lemma_precedes_one_way(y[k].0, extra);
            assert(precedes(y[k].0, y[x.len() as int].0));
        }
    } else {
        lemma_same_start(x, y, edges, y.len() as int);
        let extra = x[y.len() as int].0;
        assert(edges.contains_key(extra));
        let k = choose|k: int| 0 <= k < y.len() && (#[trigger] y[k]).0 == extra;
        assert(x[k] == y[k]);
        lemma_precedes_one_way(x[k].0, extra);
        assert(precedes(x[k].0, x[y.len() as int].0));
    }
    assert(x =~= y);
}

} // verus!
