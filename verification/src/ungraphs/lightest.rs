//! Walks through a weighted graph and their weights.

use super::NodeModel;
use vstd::prelude::*;

verus! {

/// Whether `ns` and `es` describe a walk: `ns` holds the places of the nodes
/// met, and `es` for each node but the last which of its edges leads to the
/// next.
pub open spec fn is_walk(g: Seq<NodeModel>, ns: Seq<int>, es: Seq<int>) -> bool {
    &&& ns.len() == es.len() + 1
    &&& forall|j: int| 0 <= j < ns.len() ==> 0 <= #[trigger] ns[j] < g.len()
    &&& forall|j: int|
        0 <= j < es.len() ==> 0 <= #[trigger] es[j] < g[ns[j]].edges.len()
            && g[ns[j]].edges[es[j]].to.label == g[ns[j + 1]].label
}

/// The sum of the weights of the edges of a walk.
pub open spec fn walk_weight(g: Seq<NodeModel>, ns: Seq<int>, es: Seq<int>) -> int
    decreases es.len(),
{
    if es.len() == 0 {
        0
    } else {
        walk_weight(g, ns.drop_last(), es.drop_last()) + g[ns[es.len() - 1]].edges[es.last()].weight
    }
}

/// The labels of the nodes of a walk.
pub open spec fn walk_labels(g: Seq<NodeModel>, ns: Seq<int>) -> Seq<Seq<char>> {
    Seq::new(ns.len(), |j: int| g[ns[j]].label)
}

/// Whether no edge has a negative weight.
pub open spec fn nonnegative(g: Seq<NodeModel>) -> bool {
    forall|i: int, k: int|
        0 <= i < g.len() && 0 <= k < g[i].edges.len() ==> (#[trigger] g[i].edges[k]).weight >= 0
}

/// Whether a walk leads from the node at `a` to the node at `b`.
pub open spec fn joined_by_walk(g: Seq<NodeModel>, a: int, b: int) -> bool {
    exists|ms: Seq<int>, fs: Seq<int>| #[trigger] is_walk(g, ms, fs) && ms[0] == a && ms.last() == b
}

/// Whether `ns` and `es` describe a walk than which no walk between the same
/// two nodes is lighter.
pub open spec fn lightest(g: Seq<NodeModel>, ns: Seq<int>, es: Seq<int>) -> bool {
    &&& is_walk(g, ns, es)
    &&& forall|ms: Seq<int>, fs: Seq<int>|
        #[trigger] is_walk(g, ms, fs) && ms[0] == ns[0] && ms.last() == ns.last() ==> walk_weight(
            g,
            ns,
            es,
        ) <= walk_weight(g, ms, fs)
}

/// The first `j` edges of a walk are a walk.
pub proof fn lemma_walk_prefix(g: Seq<NodeModel>, ns: Seq<int>, es: Seq<int>, j: int)
    requires
        is_walk(g, ns, es),
        0 <= j <= es.len(),
    ensures
        is_walk(g, ns.take(j + 1), es.take(j)),
        ns.take(j + 1)[0] == ns[0],
        ns.take(j + 1).last() == ns[j],
{
    let ms = ns.take(j + 1);
    let fs = es.take(j);
    assert forall|x: int| 0 <= x < ms.len() implies 0 <= #[trigger] ms[x] < g.len() by {
        assert(ms[x] == ns[x]);
    }
    assert forall|x: int| 0 <= x < fs.len() implies 0 <= #[trigger] fs[x] < g[ms[x]].edges.len()
        && g[ms[x]].edges[fs[x]].to.label == g[ms[x + 1]].label by {
        assert(fs[x] == es[x]);
        assert(ms[x] == ns[x] && ms[x + 1] == ns[x + 1]);
    }
}

/// One more edge adds its weight.
pub proof fn lemma_walk_step(g: Seq<NodeModel>, ns: Seq<int>, es: Seq<int>, j: int)
    requires
        is_walk(g, ns, es),
        0 <= j < es.len(),
    ensures
        walk_weight(g, ns.take(j + 2), es.take(j + 1)) == walk_weight(
            g,
            ns.take(j + 1),
            es.take(j),
        ) + g[ns[j]].edges[es[j]].weight,
{
    let ms = ns.take(j + 2);
    let fs = es.take(j + 1);
    assert(ms.drop_last() =~= ns.take(j + 1));
    assert(fs.drop_last() =~= es.take(j));
    assert(fs.last() == es[j]);
    assert(ms[fs.len() - 1] == ns[j]);
}

/// The whole walk is its own longest prefix.
pub proof fn lemma_walk_whole(g: Seq<NodeModel>, ns: Seq<int>, es: Seq<int>)
    requires
        ns.len() == es.len() + 1,
    ensures
        ns.take(es.len() as int + 1) == ns,
        es.take(es.len() as int) == es,
{
    assert(ns.take(es.len() as int + 1) =~= ns);
    assert(es.take(es.len() as int) =~= es);
}

/// Where no weight is negative, no walk has a negative weight.
pub proof fn lemma_walk_nonnegative(g: Seq<NodeModel>, ns: Seq<int>, es: Seq<int>)
    requires
        is_walk(g, ns, es),
        nonnegative(g),
    ensures
        walk_weight(g, ns, es) >= 0,
    decreases es.len(),
{
    if es.len() > 0 {
        let j = es.len() - 1;
        lemma_walk_prefix(g, ns, es, j);
        assert(ns.take(j + 1) =~= ns.drop_last());
        assert(es.take(j) =~= es.drop_last());
        lemma_walk_nonnegative(g, ns.drop_last(), es.drop_last());
        assert(0 <= es[j] < g[ns[j]].edges.len());
    }
}

} // verus!
