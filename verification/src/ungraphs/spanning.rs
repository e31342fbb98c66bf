//! Growing a spanning tree of a weighted graph from its first node.

use super::cycles::symmetric;
use super::least::{hanging_weights, hung_below, lemma_tree_is_least, mirrored, total};
use super::lightest::{is_walk, joined_by_walk};
use super::{
    bare, has_edge, has_label, index_of, lemma_edges_model, lemma_index_of, node_sound, with_edge,
    Edge, EdgeModel, NodeModel, WeightedGraphs,
};
use crate::min_queue::{no_entries, queue_entries, queue_new, queue_pop, queue_push, EntryQueue};
use vstd::prelude::*;

verus! {

/// The tree `t` after the far end of `e` was hung on it: the far end is a new
/// last node, joined in both directions to the near end where the tree has
/// it (an edge from a label to itself joins the new node to itself).
pub open spec fn hung(t: Seq<NodeModel>, e: EdgeModel) -> Seq<NodeModel> {
    let g1 = t.push(bare(e.to.label));
    if has_label(g1, e.from.label) {
        let i = index_of(g1, e.from.label);
        let j = t.len() as int;
        with_edge(with_edge(g1, i, g1[j], e.weight), j, g1[i], e.weight)
    } else {
        g1
    }
}

/// Whether every node after the first has, as its first edge, one to a node
/// that stands before it.
pub open spec fn hangs(t: Seq<NodeModel>) -> bool {
    forall|m: int|
        1 <= m < t.len() ==> (#[trigger] t[m]).edges.len() >= 1 && exists|p: int|
            0 <= p < m && #[trigger] t[p].label == t[m].edges[0].to.label
}

/// How many edges the nodes of `t` hold in all, each direction counted.
pub open spec fn edge_count(t: Seq<NodeModel>) -> nat
    decreases t.len(),
{
    if t.len() == 0 {
        0
    } else {
        edge_count(t.drop_last()) + t.last().edges.len()
    }
}

/// Whether every edge of `t` joins two labels that `g` joins, in one
/// direction or the other, with the same weight.
pub open spec fn drawn_from(t: Seq<NodeModel>, g: Seq<NodeModel>) -> bool {
    forall|m: int, k: int|
        0 <= m < t.len() && 0 <= k < t[m].edges.len() ==> {
            let e = #[trigger] t[m].edges[k];
            has_edge(g, t[m].label, e.to.label, e.weight) || has_edge(
                g,
                e.to.label,
                t[m].label,
                e.weight,
            )
        }
}

/// Whether every label of `t` is a label of `g`.
pub open spec fn labels_within(t: Seq<NodeModel>, g: Seq<NodeModel>) -> bool {
    forall|m: int| 0 <= m < t.len() ==> has_label(g, (#[trigger] t[m]).label)
}

/// Whether a node labelled `l` stands before place `i` of `t`.
pub open spec fn stands_before(t: Seq<NodeModel>, i: int, l: Seq<char>) -> bool {
    exists|a: int| 0 <= a < i && a < t.len() && #[trigger] t[a].label == l
}

/// Whether each node after the first hangs by an edge that is no heavier
/// than any edge of `g` that leads from a node standing before it to a node
/// not standing before it.
pub open spec fn light_cut(t: Seq<NodeModel>, g: Seq<NodeModel>) -> bool {
    forall|i: int, u: int, k: int|
        #![trigger t[i], g[u].edges[k]]
        1 <= i < t.len() && 0 <= u < g.len() && 0 <= k < g[u].edges.len() && stands_before(
            t,
            i,
            g[u].label,
        ) && !stands_before(t, i, g[u].edges[k].to.label) ==> t[i].edges[0].weight
            <= g[u].edges[k].weight
}

/// Whether a walk leads from the first node to every node.
pub open spec fn connected(g: Seq<NodeModel>) -> bool {
    forall|i: int| 0 <= i < g.len() ==> #[trigger] joined_by_walk(g, 0, i)
}

/// Whether a walk leads from the first node of `g` to its node labelled `l`.
spec fn walked(g: Seq<NodeModel>, l: Seq<char>) -> bool {
    exists|i: int| 0 <= i < g.len() && #[trigger] g[i].label == l && joined_by_walk(g, 0, i)
}

/// Whether the queue holds an entry for edge `k` of node `u`.
spec fn queued(
    table: Seq<(usize, usize)>,
    entries: Map<(usize, i128), i128>,
    g: Seq<NodeModel>,
    u: int,
    k: int,
) -> bool {
    exists|j: usize|
        j < table.len() && (#[trigger] table[j as int]).0 == u && table[j as int].1 == k
            && entries.dom().contains((j, g[u].edges[k].weight as i128))
}

/// Whether the queue holds an entry for every edge that leads from a node of
/// the tree `t`, other than node `skip`, to a node that is not in the tree.
#[verifier::opaque]
spec fn cut_queued(
    g: Seq<NodeModel>,
    t: Seq<NodeModel>,
    table: Seq<(usize, usize)>,
    entries: Map<(usize, i128), i128>,
    skip: int,
) -> bool {
    forall|u: int, k: int|
        0 <= u < g.len() && u != skip && 0 <= k < g[u].edges.len() && has_label(t, g[u].label)
            && !has_label(t, (#[trigger] g[u].edges[k]).to.label) ==> queued(
            table,
            entries,
            g,
            u,
            k,
        )
}

/// Whether the queue is finite, every kept edge is an edge of a node of the
/// tree, and every entry names a kept edge and is filed under its weight.
spec fn entries_ok(
    entries: Map<(usize, i128), i128>,
    table: Seq<(usize, usize)>,
    g: Seq<NodeModel>,
    t: Seq<NodeModel>,
) -> bool {
    &&& entries.dom().finite()
    &&& forall|j: int|
        0 <= j < table.len() ==> (#[trigger] table[j]).0 < g.len() && table[j].1
            < g[table[j].0 as int].edges.len() && has_label(t, g[table[j].0 as int].label)
    &&& forall|e: (usize, i128)| #[trigger]
        entries.dom().contains(e) ==> e.0 < table.len() && e.1
            == g[table[e.0 as int].0 as int].edges[table[e.0 as int].1 as int].weight
            && entries[e] == e.1
}

/// Whether no two nodes share a label and every edge is sound.
spec fn graph_ok(g: Seq<NodeModel>) -> bool {
    &&& forall|a: int, b: int| 0 <= a < b < g.len() ==> (#[trigger] g[a]).label != (#[trigger] g[b]).label
    &&& forall|i: int| 0 <= i < g.len() ==> node_sound(g, #[trigger] g[i])
}

/// Whether `t` is a tree grown out of `g`.
#[verifier::opaque]
spec fn tree_ok(t: Seq<NodeModel>, g: Seq<NodeModel>) -> bool {
    &&& t.len() >= 1
    &&& t[0].label == g[0].label
    &&& labels_within(t, g)
    &&& hangs(t)
    &&& edge_count(t) == 2 * (t.len() - 1)
    &&& drawn_from(t, g)
    &&& light_cut(t, g)
    &&& forall|a: int| 0 <= a < t.len() ==> walked(g, (#[trigger] t[a]).label)
}

/// One more edge adds one to the count.
proof fn lemma_edge_count_with_edge(g: Seq<NodeModel>, i: int, to: NodeModel, w: i32)
    requires
        0 <= i < g.len(),
    ensures
        edge_count(with_edge(g, i, to, w)) == edge_count(g) + 1,
    decreases g.len(),
{
    let g1 = with_edge(g, i, to, w);
    if i == g.len() - 1 {
        assert(g1.drop_last() =~= g.drop_last());
    } else {
        lemma_edge_count_with_edge(g.drop_last(), i, to, w);
        assert(g1.drop_last() =~= with_edge(g.drop_last(), i, to, w));
    }
}

/// What hanging an edge on a tree keeps and adds.
proof fn lemma_hung(t: Seq<NodeModel>, g: Seq<NodeModel>, e: EdgeModel)
    requires
        t.len() >= 1,
        forall|a: int, b: int| 0 <= a < b < t.len() ==> (#[trigger] t[a]).label != (#[trigger] t[b]).label,
        has_label(t, e.from.label),
        !has_label(t, e.to.label),
        hangs(t),
        drawn_from(t, g),
        labels_within(t, g),
        has_label(g, e.to.label),
        has_edge(g, e.from.label, e.to.label, e.weight),
    ensures
        hung(t, e).len() == t.len() + 1,
        forall|m: int| 0 <= m < t.len() ==> (#[trigger] hung(t, e)[m]).label == t[m].label,
        hung(t, e)[t.len() as int].label == e.to.label,
        hangs(hung(t, e)),
        drawn_from(hung(t, e), g),
        labels_within(hung(t, e), g),
        edge_count(hung(t, e)) == edge_count(t) + 2,
        forall|l: Seq<char>| has_label(t, l) ==> has_label(hung(t, e), l),
{
    let g1 = t.push(bare(e.to.label));
    let j = t.len() as int;
    let i = index_of(g1, e.from.label);
    let i0 = index_of(t, e.from.label);
    assert(g1[i0].label == e.from.label);
    assert(0 <= i < g1.len() && g1[i].label == e.from.label);
    assert(i != j);
    let g2 = with_edge(g1, i, g1[j], e.weight);
    let g3 = with_edge(g2, j, g1[i], e.weight);
    assert(g3 == hung(t, e));
    assert(g1.drop_last() =~= t);
    lemma_edge_count_with_edge(g1, i, g1[j], e.weight);
    lemma_edge_count_with_edge(g2, j, g1[i], e.weight);
    assert forall|m: int| 1 <= m < g3.len() implies (#[trigger] g3[m]).edges.len() >= 1
        && exists|p: int| 0 <= p < m && #[trigger] g3[p].label == g3[m].edges[0].to.label by {
        if m < j {
            assert(t[m].edges.len() >= 1);
            let p = choose|p: int| 0 <= p < m && #[trigger] t[p].label == t[m].edges[0].to.label;
            assert(g3[p].label == t[p].label);
            assert(g3[m].edges[0] == t[m].edges[0]);
        } else {
            assert(g3[i].label == g3[j].edges[0].to.label);
        }
    }
    assert forall|m: int, k: int| 0 <= m < g3.len() && 0 <= k < g3[m].edges.len() implies {
        let x = #[trigger] g3[m].edges[k];
        has_edge(g, g3[m].label, x.to.label, x.weight) || has_edge(
            g,
            x.to.label,
            g3[m].label,
            x.weight,
        )
    } by {
        if m < j && k < t[m].edges.len() {
            assert(g3[m].edges[k] == t[m].edges[k]);
        }
    }
    assert forall|m: int| 0 <= m < g3.len() implies has_label(g, (#[trigger] g3[m]).label) by {
        if m < j {
            assert(g3[m].label == t[m].label);
        }
    }
    assert forall|l: Seq<char>| has_label(t, l) implies has_label(g3, l) by {
        let a = choose|a: int| 0 <= a < t.len() && #[trigger] t[a].label == l;
        assert(g3[a].label == l);
    }
}

/// The node hung on a tree hangs by the edge that was hung.
proof fn lemma_hung_first(t: Seq<NodeModel>, e: EdgeModel)
    requires
        t.len() >= 1,
        has_label(t, e.from.label),
        !has_label(t, e.to.label),
    ensures
        hung(t, e)[t.len() as int].edges.len() >= 1,
        hung(t, e)[t.len() as int].edges[0].weight == e.weight,
{
    let g1 = t.push(bare(e.to.label));
    let j = t.len() as int;
    let i0 = index_of(t, e.from.label);
    assert(g1[i0].label == e.from.label);
    let i = index_of(g1, e.from.label);
    assert(0 <= i < g1.len() && g1[i].label == e.from.label);
    assert(i != j);
}

/// A node of a tree keeps its first edge when another node is hung on the
/// tree.
proof fn lemma_hung_keeps_first(t: Seq<NodeModel>, e: EdgeModel, m: int)
    requires
        t.len() >= 1,
        has_label(t, e.from.label),
        !has_label(t, e.to.label),
        0 <= m < t.len(),
        t[m].edges.len() >= 1,
    ensures
        hung(t, e)[m].edges[0] == t[m].edges[0],
{
    let g1 = t.push(bare(e.to.label));
    let j = t.len() as int;
    let i0 = index_of(t, e.from.label);
    assert(g1[i0].label == e.from.label);
    let i = index_of(g1, e.from.label);
    assert(0 <= i < g1.len() && g1[i].label == e.from.label);
    assert(i != j);
}

/// A tree that holds as many nodes as the graph, with labels of the graph
/// only and none twice, holds every label of the graph.
proof fn lemma_spans(t: Seq<NodeModel>, g: Seq<NodeModel>)
    requires
        forall|a: int, b: int| 0 <= a < b < t.len() ==> (#[trigger] t[a]).label != (#[trigger] t[b]).label,
        forall|a: int, b: int| 0 <= a < b < g.len() ==> (#[trigger] g[a]).label != (#[trigger] g[b]).label,
        labels_within(t, g),
        t.len() == g.len(),
    ensures
        forall|l: Seq<char>| has_label(t, l) <==> has_label(g, l),
{
    let tl = t.map_values(|n: NodeModel| n.label);
    let gl = g.map_values(|n: NodeModel| n.label);
    assert(tl.no_duplicates()) by {
        assert forall|i: int, j: int| 0 <= i < tl.len() && 0 <= j < tl.len() && i != j implies tl[i]
            != tl[j] by {
            if i < j {
                assert(t[i].label != t[j].label);
            } else {
                assert(t[j].label != t[i].label);
            }
        }
    }
    assert(gl.no_duplicates()) by {
        assert forall|i: int, j: int| 0 <= i < gl.len() && 0 <= j < gl.len() && i != j implies gl[i]
            != gl[j] by {
            if i < j {
                assert(g[i].label != g[j].label);
            } else {
                assert(g[j].label != g[i].label);
            }
        }
    }
    tl.unique_seq_to_set();
    gl.unique_seq_to_set();
    assert(tl.to_set().subset_of(gl.to_set())) by {
        assert forall|l: Seq<char>| tl.to_set().contains(l) implies gl.to_set().contains(l) by {
            let i = choose|i: int| 0 <= i < tl.len() && tl[i] == l;
            assert(has_label(g, t[i].label));
            let j = choose|j: int| 0 <= j < g.len() && #[trigger] g[j].label == l;
            assert(gl[j] == l);
        }
    }
    vstd::set_lib::lemma_subset_equality(tl.to_set(), gl.to_set());
    assert forall|l: Seq<char>| has_label(t, l) <==> has_label(g, l) by {
        if has_label(t, l) {
            let i = choose|i: int| 0 <= i < t.len() && #[trigger] t[i].label == l;
            assert(has_label(g, t[i].label));
        }
        if has_label(g, l) {
            let j = choose|j: int| 0 <= j < g.len() && #[trigger] g[j].label == l;
            assert(gl[j] == l);
            assert(gl.to_set().contains(l));
            assert(tl.to_set().contains(l));
            let i = choose|i: int| 0 <= i < tl.len() && tl[i] == l;
            assert(t[i].label == l);
        }
    }
}

/// A walk can be continued along an edge.
proof fn lemma_walk_more(g: Seq<NodeModel>, u: int, k: int, v: int)
    requires
        joined_by_walk(g, 0, u),
        0 <= u < g.len(),
        0 <= v < g.len(),
        0 <= k < g[u].edges.len(),
        g[u].edges[k].to.label == g[v].label,
    ensures
        joined_by_walk(g, 0, v),
{
    let (ms, fs) = choose|ms: Seq<int>, fs: Seq<int>| #[trigger]
        is_walk(g, ms, fs) && ms[0] == 0 && ms.last() == u;
    let ns = ms.push(v);
    let es = fs.push(k);
    assert forall|j: int| 0 <= j < es.len() implies 0 <= #[trigger] es[j] < g[ns[j]].edges.len()
        && g[ns[j]].edges[es[j]].to.label == g[ns[j + 1]].label by {
        if j < fs.len() {
            assert(es[j] == fs[j] && ns[j] == ms[j] && ns[j + 1] == ms[j + 1]);
        }
    }
    assert forall|j: int| 0 <= j < ns.len() implies 0 <= #[trigger] ns[j] < g.len() by {
        if j < ms.len() {
            assert(ns[j] == ms[j]);
        }
    }
    assert(is_walk(g, ns, es));
    assert(ns[0] == 0 && ns.last() == v);
}

/// The first node alone is a tree grown out of the graph.
proof fn lemma_tree_start(g: Seq<NodeModel>)
    requires
        g.len() >= 1,
    ensures
        tree_ok(seq![bare(g[0].label)], g),
{
    reveal(tree_ok);
    let t = seq![bare(g[0].label)];
    assert(t[0].label == g[0].label);
    assert(edge_count(t.drop_last()) == 0);
    assert(edge_count(t) == 0);
    assert(g[0].label == g[0].label);
    assert(is_walk(g, seq![0int], Seq::<int>::empty()));
    assert(joined_by_walk(g, 0, 0));
    assert(walked(g, g[0].label));
}

/// What a tree grown out of a graph is.
proof fn lemma_tree_done(t: Seq<NodeModel>, g: Seq<NodeModel>)
    requires
        tree_ok(t, g),
    ensures
        t.len() >= 1,
        t[0].label == g[0].label,
        labels_within(t, g),
        hangs(t),
        edge_count(t) == 2 * (t.len() - 1),
        drawn_from(t, g),
        light_cut(t, g),
        forall|a: int| 0 <= a < t.len() ==> walked(g, (#[trigger] t[a]).label),
{
    reveal(tree_ok);
}

/// Hanging the edge of a least entry of the queue, whose far end is new, on
/// a tree gives a tree, one node larger.
proof fn lemma_attach_tree(
    t: Seq<NodeModel>,
    g: Seq<NodeModel>,
    table: Seq<(usize, usize)>,
    entries: Map<(usize, i128), i128>,
    entry: (usize, i128),
    v: int,
)
    requires
        graph_ok(g),
        tree_ok(t, g),
        forall|a: int, b: int| 0 <= a < b < t.len() ==> (#[trigger] t[a]).label != (#[trigger] t[b]).label,
        entries_ok(entries, table, g, t),
        cut_queued(g, t, table, entries, -1),
        entries.dom().contains(entry),
        forall|other: (usize, i128)| #[trigger] entries.dom().contains(other) ==> entries[entry]
            <= entries[other],
        0 <= v < g.len(),
        g[v].label == picked(g, table, entry).to.label,
        !has_label(t, g[v].label),
    ensures
        tree_ok(hung(t, picked(g, table, entry)), g),
        hung(t, picked(g, table, entry)).len() == t.len() + 1,
        has_label(hung(t, picked(g, table, entry)), g[v].label),
        forall|l: Seq<char>|
            has_label(hung(t, picked(g, table, entry)), l) <==> has_label(t, l) || l == g[v].label,
{
    reveal(tree_ok);
    let j0 = entry.0 as int;
    let u0 = table[j0].0 as int;
    let k0 = table[j0].1 as int;
    let e = g[u0].edges[k0];
    let t2 = hung(t, e);
    assert(node_sound(g, g[u0]));
    assert(e.from.label == g[u0].label);
    lemma_hung(t, g, e);
    lemma_hung_first(t, e);
    assert(t2[t.len() as int].label == e.to.label);
    assert forall|l: Seq<char>| has_label(t2, l) <==> has_label(t, l) || l == g[v].label by {
        if has_label(t2, l) {
            let a = choose|a: int| 0 <= a < t2.len() && #[trigger] t2[a].label == l;
            if a < t.len() {
                assert(t[a].label == l);
            }
        }
    }
    assert forall|a: int| 0 <= a < t2.len() implies walked(g, (#[trigger] t2[a]).label) by {
        if a < t.len() {
            assert(t2[a].label == t[a].label);
            assert(walked(g, t[a].label));
        } else {
            let a0 = choose|a0: int| 0 <= a0 < t.len() && #[trigger] t[a0].label == g[u0].label;
            assert(walked(g, t[a0].label));
            let i = choose|i: int|
                0 <= i < g.len() && #[trigger] g[i].label == g[u0].label && joined_by_walk(g, 0, i);
            lemma_index_of(g, i);
            lemma_index_of(g, u0);
            lemma_walk_more(g, u0, k0, v);
            assert(g[v].label == t2[a].label);
        }
    }
    lemma_attach_light(t, g, table, entries, entry);
}

/// The edge that an entry of the queue names.
spec fn picked(g: Seq<NodeModel>, table: Seq<(usize, usize)>, entry: (usize, i128)) -> EdgeModel {
    g[table[entry.0 as int].0 as int].edges[table[entry.0 as int].1 as int]
}

/// The edge of a least entry of the queue is no heavier than any edge from
/// the tree to a node outside it; so the tree with that edge hung on it
/// still hangs every node by such an edge.
proof fn lemma_attach_light(
    t: Seq<NodeModel>,
    g: Seq<NodeModel>,
    table: Seq<(usize, usize)>,
    entries: Map<(usize, i128), i128>,
    entry: (usize, i128),
)
    requires
        t.len() >= 1,
        hangs(t),
        light_cut(t, g),
        entries_ok(entries, table, g, t),
        cut_queued(g, t, table, entries, -1),
        entries.dom().contains(entry),
        forall|other: (usize, i128)| #[trigger] entries.dom().contains(other) ==> entries[entry]
            <= entries[other],
        has_label(t, picked(g, table, entry).from.label),
        !has_label(t, picked(g, table, entry).to.label),
    ensures
        light_cut(hung(t, picked(g, table, entry)), g),
{
    reveal(cut_queued);
    let e = picked(g, table, entry);
    let t2 = hung(t, e);
    lemma_hung_first(t, e);
    lemma_hung_labels(t, e);
    assert forall|i: int, u: int, k: int|
        #![trigger t2[i], g[u].edges[k]]
        1 <= i < t2.len() && 0 <= u < g.len() && 0 <= k < g[u].edges.len() && stands_before(
            t2,
            i,
            g[u].label,
        ) && !stands_before(t2, i, g[u].edges[k].to.label) implies t2[i].edges[0].weight
        <= g[u].edges[k].weight by {
        let near = g[u].label;
        let far = g[u].edges[k].to.label;
        let a = choose|a: int| 0 <= a < i && a < t2.len() && #[trigger] t2[a].label == near;
        assert(t[a].label == near);
        if i < t.len() {
            assert(stands_before(t, i, near));
            if stands_before(t, i, far) {
                let b = choose|b: int| 0 <= b < i && b < t.len() && #[trigger] t[b].label == far;
                assert(t2[b].label == far);
            }
            assert(t[i].edges.len() >= 1);
            lemma_hung_keeps_first(t, e, i);
            assert(t[i].edges[0].weight <= g[u].edges[k].weight);
        } else {
            assert(has_label(t, near));
            assert(!has_label(t, far)) by {
                if has_label(t, far) {
                    let b = choose|b: int| 0 <= b < t.len() && #[trigger] t[b].label == far;
                    assert(t2[b].label == far);
                }
            }
            assert(queued(table, entries, g, u, k));
            let x = choose|x: usize|
                x < table.len() && (#[trigger] table[x as int]).0 == u && table[x as int].1 == k
                    && entries.dom().contains((x, g[u].edges[k].weight as i128));
            assert(entries.dom().contains((x, g[u].edges[k].weight as i128)));
        }
    }
}

/// Hanging an edge on a tree leaves the labels of its nodes as they are.
proof fn lemma_hung_labels(t: Seq<NodeModel>, e: EdgeModel)
    requires
        t.len() >= 1,
        has_label(t, e.from.label),
        !has_label(t, e.to.label),
    ensures
        hung(t, e).len() == t.len() + 1,
        forall|a: int| 0 <= a < t.len() ==> (#[trigger] hung(t, e)[a]).label == t[a].label,
        hung(t, e)[t.len() as int].label == e.to.label,
{
    let g1 = t.push(bare(e.to.label));
    let j = t.len() as int;
    let i0 = index_of(t, e.from.label);
    assert(g1[i0].label == e.from.label);
    let i = index_of(g1, e.from.label);
    assert(0 <= i < g1.len() && g1[i].label == e.from.label);
    assert(i != j);
}

/// After the edge of an entry was hung on the tree, the other entries
/// still stand for every edge from an older node of the tree to a node
/// outside it.
proof fn lemma_attach_queue(
    t: Seq<NodeModel>,
    t2: Seq<NodeModel>,
    g: Seq<NodeModel>,
    table: Seq<(usize, usize)>,
    entries: Map<(usize, i128), i128>,
    entry: (usize, i128),
    v: int,
)
    requires
        forall|a: int, b: int| 0 <= a < b < g.len() ==> (#[trigger] g[a]).label != (#[trigger] g[b]).label,
        entries_ok(entries, table, g, t),
        cut_queued(g, t, table, entries, -1),
        entries.dom().contains(entry),
        0 <= v < g.len(),
        g[v].label == picked(g, table, entry).to.label,
        forall|l: Seq<char>| has_label(t2, l) <==> has_label(t, l) || l == g[v].label,
    ensures
        entries_ok(entries.remove(entry), table, g, t2),
        cut_queued(g, t2, table, entries.remove(entry), v),
{
    reveal(cut_queued);
    let e2 = entries.remove(entry);
    assert forall|u: int, k: int|
        0 <= u < g.len() && u != v && 0 <= k < g[u].edges.len() && has_label(t2, g[u].label)
            && !has_label(t2, (#[trigger] g[u].edges[k]).to.label) implies queued(
        table,
        e2,
        g,
        u,
        k,
    ) by {
        if u < v {
            assert(g[u].label != g[v].label);
        } else {
            assert(g[v].label != g[u].label);
        }
        assert(has_label(t, g[u].label));
        assert(!has_label(t, g[u].edges[k].to.label));
        assert(queued(table, entries, g, u, k));
        let x = choose|x: usize|
            x < table.len() && (#[trigger] table[x as int]).0 == u && table[x as int].1 == k
                && entries.dom().contains((x, g[u].edges[k].weight as i128));
        assert(x != entry.0);
        assert(e2.dom().contains((x, g[u].edges[k].weight as i128)));
    }
    assert forall|o: (usize, i128)| #[trigger] e2.dom().contains(o) implies o.0 < table.len()
        && o.1 == g[table[o.0 as int].0 as int].edges[table[o.0 as int].1 as int].weight
        && e2[o] == o.1 by {
        assert(entries.dom().contains(o));
    }
    assert forall|j: int| 0 <= j < table.len() implies (#[trigger] table[j]).0 < g.len()
        && table[j].1 < g[table[j].0 as int].edges.len() && has_label(
        t2,
        g[table[j].0 as int].label,
    ) by {
        assert(has_label(t, g[table[j].0 as int].label));
    }
}

/// Passing over the edge of an entry whose far end is in the tree keeps
/// the entries of the other edges.
proof fn lemma_skip_step(
    t: Seq<NodeModel>,
    g: Seq<NodeModel>,
    table: Seq<(usize, usize)>,
    entries: Map<(usize, i128), i128>,
    entry: (usize, i128),
)
    requires
        entries_ok(entries, table, g, t),
        cut_queued(g, t, table, entries, -1),
        entries.dom().contains(entry),
        has_label(t, g[table[entry.0 as int].0 as int].edges[table[entry.0 as int].1 as int].to.label),
    ensures
        cut_queued(g, t, table, entries.remove(entry), -1),
        entries_ok(entries.remove(entry), table, g, t),
{
    reveal(cut_queued);
    let e2 = entries.remove(entry);
    assert forall|u: int, k: int|
        0 <= u < g.len() && u != -1 && 0 <= k < g[u].edges.len() && has_label(t, g[u].label)
            && !has_label(t, (#[trigger] g[u].edges[k]).to.label) implies queued(
        table,
        e2,
        g,
        u,
        k,
    ) by {
        assert(queued(table, entries, g, u, k));
        let x = choose|x: usize|
            x < table.len() && (#[trigger] table[x as int]).0 == u && table[x as int].1 == k
                && entries.dom().contains((x, g[u].edges[k].weight as i128));
        assert(x != entry.0);
        assert(e2.dom().contains((x, g[u].edges[k].weight as i128)));
    }
    assert forall|o: (usize, i128)| #[trigger] e2.dom().contains(o) implies o.0 < table.len()
        && o.1 == g[table[o.0 as int].0 as int].edges[table[o.0 as int].1 as int].weight
        && e2[o] == o.1 by {
        assert(entries.dom().contains(o));
    }
}

/// A tree with fewer nodes than the graph lacks a label of the graph.
proof fn lemma_missing(t: Seq<NodeModel>, g: Seq<NodeModel>)
    requires
        forall|a: int, b: int| 0 <= a < b < g.len() ==> (#[trigger] g[a]).label != (#[trigger] g[b]).label,
        t.len() < g.len(),
    ensures
        exists|x: int| 0 <= x < g.len() && !has_label(t, (#[trigger] g[x]).label),
{
    let tl = t.map_values(|n: NodeModel| n.label);
    let gl = g.map_values(|n: NodeModel| n.label);
    if forall|x: int| 0 <= x < g.len() ==> has_label(t, (#[trigger] g[x]).label) {
        assert(gl.no_duplicates()) by {
            assert forall|i: int, j: int| 0 <= i < gl.len() && 0 <= j < gl.len() && i != j implies gl[i]
                != gl[j] by {
                if i < j {
                    assert(g[i].label != g[j].label);
                } else {
                    assert(g[j].label != g[i].label);
                }
            }
        }
        gl.unique_seq_to_set();
        assert(gl.to_set().subset_of(tl.to_set())) by {
            assert forall|l: Seq<char>| gl.to_set().contains(l) implies tl.to_set().contains(l) by {
                let i = choose|i: int| 0 <= i < gl.len() && gl[i] == l;
                assert(has_label(t, g[i].label));
                let a = choose|a: int| 0 <= a < t.len() && #[trigger] t[a].label == l;
                assert(tl[a] == l);
            }
        }
        vstd::seq_lib::seq_to_set_is_finite(tl);
        vstd::set_lib::lemma_len_subset(gl.to_set(), tl.to_set());
        tl.lemma_cardinality_of_set();
    }
}

/// A walk from a node of the tree to a node outside it leaves the tree
/// along one of its edges.
proof fn lemma_crossing(t: Seq<NodeModel>, g: Seq<NodeModel>, ms: Seq<int>, fs: Seq<int>, m: int) -> (j: int)
    requires
        is_walk(g, ms, fs),
        has_label(t, g[ms[0]].label),
        0 <= m < ms.len(),
        !has_label(t, g[ms[m]].label),
    ensures
        0 <= j < fs.len(),
        has_label(t, g[ms[j]].label),
        !has_label(t, g[ms[j + 1]].label),
    decreases m,
{
    if has_label(t, g[ms[m - 1]].label) {
        m - 1
    } else {
        lemma_crossing(t, g, ms, fs, m - 1)
    }
}

/// While a tree grown out of a connected graph lacks a node, the queue holds
/// an entry.
proof fn lemma_success(
    t: Seq<NodeModel>,
    g: Seq<NodeModel>,
    table: Seq<(usize, usize)>,
    entries: Map<(usize, i128), i128>,
)
    requires
        graph_ok(g),
        connected(g),
        tree_ok(t, g),
        t.len() < g.len(),
        cut_queued(g, t, table, entries, -1),
    ensures
        entries != no_entries(),
{
    reveal(tree_ok);
    reveal(cut_queued);
    lemma_missing(t, g);
    let x = choose|x: int| 0 <= x < g.len() && !has_label(t, (#[trigger] g[x]).label);
    assert(joined_by_walk(g, 0, x));
    let (ms, fs) = choose|ms: Seq<int>, fs: Seq<int>| #[trigger]
        is_walk(g, ms, fs) && ms[0] == 0 && ms.last() == x;
    assert(has_label(t, g[0].label)) by {
        assert(t[0].label == g[0].label);
    }
    let j = lemma_crossing(t, g, ms, fs, ms.len() - 1);
    let u = ms[j];
    let k = fs[j];
    assert(0 <= u < g.len());
    assert(0 <= k < g[u].edges.len() && g[u].edges[k].to.label == g[ms[j + 1]].label);
    assert(queued(table, entries, g, u, k));
    let y = choose|y: usize|
        y < table.len() && (#[trigger] table[y as int]).0 == u && table[y as int].1 == k
            && entries.dom().contains((y, g[u].edges[k].weight as i128));
    assert(entries.dom().contains((y, g[u].edges[k].weight as i128)));
}

/// A graph whose labels are all reached by the tree is connected.
proof fn lemma_connected(t: Seq<NodeModel>, g: Seq<NodeModel>)
    requires
        graph_ok(g),
        forall|a: int| 0 <= a < t.len() ==> walked(g, (#[trigger] t[a]).label),
        forall|l: Seq<char>| has_label(t, l) <==> has_label(g, l),
    ensures
        connected(g),
{
    assert forall|i: int| 0 <= i < g.len() implies #[trigger] joined_by_walk(g, 0, i) by {
        lemma_index_of(g, i);
        assert(has_label(t, g[i].label));
        let a = choose|a: int| 0 <= a < t.len() && #[trigger] t[a].label == g[i].label;
        assert(walked(g, t[a].label));
        let x = choose|x: int|
            0 <= x < g.len() && #[trigger] g[x].label == g[i].label && joined_by_walk(g, 0, x);
        lemma_index_of(g, x);
    }
}

impl WeightedGraphs {
    /// Hangs the far end of `edge` on this tree unless the tree has a node of
    /// that label already, and says whether it did.
    pub fn attach(&mut self, edge: &Edge) -> (added: bool)
        requires
            old(self).wf(),
        ensures
            final(self).wf(),
            added == !has_label(old(self)@, edge@.to.label),
            !added ==> final(self)@ == old(self)@,
            added ==> final(self)@ == hung(old(self)@, edge@),
    {
        if self.contains_node(edge.to().label()) {
            return false;
        }
        let ghost t = self@;
        self.add_node(edge.to().label().clone());
        let ghost g1 = self@;
        proof {
            assert(g1 == t.push(bare(edge@.to.label)));
            assert(g1[t.len() as int].label == edge@.to.label);
            lemma_index_of(g1, t.len() as int);
            assert forall|l: Seq<char>| has_label(t, l) <==> (has_label(g1, l) && l
                != edge@.to.label) by {
                if has_label(t, l) {
                    let a = choose|a: int| 0 <= a < t.len() && #[trigger] t[a].label == l;
                    assert(g1[a].label == l);
                }
                if has_label(g1, l) && l != edge@.to.label {
                    let a = choose|a: int| 0 <= a < g1.len() && #[trigger] g1[a].label == l;
                    assert(t[a].label == l);
                }
            }
        }
        self.add_edge(edge.from().label().clone(), edge.to().label().clone(), edge.weight());
        true
    }

    /// Queues every edge of node `v` of `graph` whose far end is not yet in
    /// this tree.
    fn queue_edges(
        &self,
        graph: &WeightedGraphs,
        v: usize,
        table: &mut Vec<(usize, usize)>,
        edges: &mut EntryQueue,
    )
        requires
            graph.wf(),
            v < graph@.len(),
            has_label(self@, graph@[v as int].label),
            entries_ok(queue_entries(*old(edges)), old(table)@, graph@, self@),
            cut_queued(graph@, self@, old(table)@, queue_entries(*old(edges)), v as int),
        ensures
            entries_ok(queue_entries(*final(edges)), final(table)@, graph@, self@),
            cut_queued(graph@, self@, final(table)@, queue_entries(*final(edges)), -1),
    {
        let ghost g = graph@;
        let ghost t = self@;
        let node = &graph.nodes[v];
        let mut k: usize = 0;
        proof {
            lemma_edges_model(node.edges@);
            assert(node_sound(g, g[v as int]));
        }
        while k < node.edges.len()
            invariant
                g == graph@,
                t == self@,
                graph.wf(),
                v < g.len(),
                node == &graph.nodes[v as int],
                node@ == g[v as int],
                k <= node.edges.len(),
                node.edges.len() == node@.edges.len(),
                forall|j: int|
                    0 <= j < node@.edges.len() ==> #[trigger] node@.edges[j] == node.edges@[j]@,
                has_label(t, g[v as int].label),
                entries_ok(queue_entries(*edges), table@, g, t),
                cut_queued(g, t, table@, queue_entries(*edges), v as int),
                forall|x: int|
                    0 <= x < k && !has_label(t, (#[trigger] g[v as int].edges[x]).to.label)
                        ==> queued(table@, queue_entries(*edges), g, v as int, x),
            decreases node.edges.len() - k,
        {
            let candidate = &node.edges[k];
            proof {
                assert(g[v as int].edges[k as int] == candidate@);
            }
            if !self.contains_node(candidate.to().label()) {
                let weight = candidate.weight();
                let ghost table0 = table@;
                let ghost before = queue_entries(*edges);
                let key = table.len();
                table.push((v, k));
                queue_push(edges, (key, weight as i128), weight as i128);
                proof {
                    let after = queue_entries(*edges);
                    reveal(cut_queued);
                    assert(after.dom() =~= before.dom().insert((key, weight as i128)));
                    assert(table@[key as int] == (v, k));
                    assert(queued(table@, after, g, v as int, k as int));
                    assert forall|u: int, x: int|
                        queued(table0, before, g, u, x) implies queued(table@, after, g, u, x) by {
                        let y = choose|y: usize|
                            y < table0.len() && (#[trigger] table0[y as int]).0 == u
                                && table0[y as int].1 == x && before.dom().contains(
                                (y, g[u].edges[x].weight as i128),
                            );
                        assert(table@[y as int] == table0[y as int]);
                        assert(after.dom().contains((y, g[u].edges[x].weight as i128)));
                    }
                    assert forall|e: (usize, i128)| #[trigger] after.dom().contains(e) implies e.0
                        < table@.len() && e.1
                        == g[table@[e.0 as int].0 as int].edges[table@[e.0 as int].1 as int].weight
                        && after[e] == e.1 by {
                        if e != (key, weight as i128) {
                            assert(before.dom().contains(e));
                            assert(table@[e.0 as int] == table0[e.0 as int]);
                        }
                    }
                    assert forall|j: int| 0 <= j < table@.len() implies (#[trigger] table@[j]).0
                        < g.len() && table@[j].1 < g[table@[j].0 as int].edges.len() && has_label(
                        t,
                        g[table@[j].0 as int].label,
                    ) by {
                        if j < table0.len() {
                            assert(table@[j] == table0[j]);
                        }
                    }
                    assert forall|u: int, x: int|
                        0 <= u < g.len() && u != v && 0 <= x < g[u].edges.len() && has_label(
                            t,
                            g[u].label,
                        ) && !has_label(t, (#[trigger] g[u].edges[x]).to.label) implies queued(
                        table@,
                        after,
                        g,
                        u,
                        x,
                    ) by {
                        assert(queued(table0, before, g, u, x));
                    }
                    assert forall|x: int|
                        0 <= x < k + 1 && !has_label(
                            t,
                            (#[trigger] g[v as int].edges[x]).to.label,
                        ) implies queued(table@, after, g, v as int, x) by {
                        if x < k {
                            assert(queued(table0, before, g, v as int, x));
                        }
                    }
                }
            }
            k += 1;
        }
        proof {
            reveal(cut_queued);
        }
    }

    /// Grows a spanning tree from the first node: again and again takes a
    /// pending edge of the smallest weight and, where its far end is new to
    /// the tree, hangs that end on the tree and makes the edges of the far
    /// end pending. The result is the tree once it holds every node, and
    /// `None` where no walk leads from the first node to some node. A graph
    /// without nodes gives a tree without nodes. The weights by which the
    /// nodes hang in the tree sum to no more than those of any other way of
    /// hanging every node below the first by edges of the graph.
    pub fn get_minimum_spanning_tree(&self) -> (r: Option<WeightedGraphs>)
        requires
            self.wf(),
        ensures
            r is Some <==> connected(self@),
            r is Some ==> {
                let t = r->0@;
                &&& r->0.wf()
                &&& t.len() == self@.len()
                &&& forall|l: Seq<char>| has_label(t, l) <==> has_label(self@, l)
                &&& t.len() > 0 ==> t[0].label == self@[0].label && edge_count(t) == 2 * (t.len()
                    - 1)
                &&& hangs(t)
                &&& drawn_from(t, self@)
                &&& light_cut(t, self@)
                &&& forall|above: Seq<int>, weights: Seq<int>, rank: Seq<int>| #[trigger]
                    hung_below(self@, above, weights, rank) ==> total(
                        hanging_weights(t, self@),
                        t.len() as int,
                    ) <= total(weights, t.len() as int)
            },
    {
        let mut tree = WeightedGraphs::new();
        let n = self.nodes.len();
        if n == 0 {
            return Some(tree);
        }
        let ghost g = self@;
        let mut table: Vec<(usize, usize)> = Vec::new();
        let mut edges = queue_new();
        tree.add_node(self.nodes[0].label().clone());
        proof {
            assert(tree@ =~= seq![bare(g[0].label)]);
            lemma_tree_start(g);
            lemma_index_of(g, 0);
            assert(queue_entries(edges).dom() =~= Set::<(usize, i128)>::empty());
            assert(cut_queued(g, tree@, table@, queue_entries(edges), 0)) by {
                reveal(cut_queued);
                assert forall|u: int| 0 <= u < g.len() && u != 0 implies !has_label(
                    tree@,
                    #[trigger] g[u].label,
                ) by {
                    if has_label(tree@, g[u].label) {
                        assert(g[0].label != g[u].label);
                    }
                }
            }
            assert(tree@[0].label == g[0].label);
        }
        tree.queue_edges(self, 0, &mut table, &mut edges);
        while tree.nodes.len() < n
            invariant
                n == self.nodes.len(),
                g == self@,
                self.wf(),
                tree.wf(),
                1 <= tree@.len() <= n,
                tree@.len() == tree.nodes.len(),
                tree_ok(tree@, g),
                entries_ok(queue_entries(edges), table@, g, tree@),
                cut_queued(g, tree@, table@, queue_entries(edges), -1),
            decreases n - tree@.len(), queue_entries(edges).dom().len(),
        {
            let ghost entries0 = queue_entries(edges);
            let popped = queue_pop(&mut edges);
            let entry = match popped {
                Some((entry, _)) => entry,
                None => {
                    proof {
                        if connected(g) {
                            lemma_success(tree@, g, table@, entries0);
                        }
                    }
                    return None;
                },
            };
            proof {
                assert(entries0.dom().contains(entry));
                assert(queue_entries(edges).dom() =~= entries0.dom().remove(entry));
                assert(queue_entries(edges) == entries0.remove(entry));
            }
            let (u, k) = table[entry.0];
            proof {
                lemma_edges_model(self.nodes@[u as int].edges@);
            }
            let min_edge = &self.nodes[u].edges[k];
            proof {
                assert(g[u as int].edges[k as int] == min_edge@);
                assert(node_sound(g, g[u as int]));
            }
            let ghost t0 = tree@;
            let found = self.position(min_edge.to().label());
            let v = found.unwrap();
            let added = tree.attach(min_edge);
            if added {
                proof {
                    lemma_attach_tree(t0, g, table@, entries0, entry, v as int);
                    lemma_attach_queue(t0, tree@, g, table@, entries0, entry, v as int);
                }
                tree.queue_edges(self, v, &mut table, &mut edges);
            } else {
                proof {
                    lemma_skip_step(tree@, g, table@, entries0, entry);
                }
            }
        }
        proof {
            lemma_tree_done(tree@, g);
            lemma_spans(tree@, g);
            lemma_connected(tree@, g);
            assert(mirrored(g)) by {
                reveal(symmetric);
            }
            assert forall|above: Seq<int>, weights: Seq<int>, rank: Seq<int>| #[trigger]
                hung_below(g, above, weights, rank) implies total(
                hanging_weights(tree@, g),
                g.len() as int,
            ) <= total(weights, g.len() as int) by {
                lemma_tree_is_least(tree@, g, above, weights, rank);
            }
        }
        Some(tree)
    }
}

} // verus!
