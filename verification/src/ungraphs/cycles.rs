//! Whether a weighted graph holds a ring: a walk that uses no edge twice and
//! returns to its start.

use super::least::{edge_of_weight, mirrored};
use super::{has_label, lemma_edges_model, node_sound, with_edge, NodeModel, WeightedGraphs};
use crate::marks::{
    count_true, lemma_count_true_bound, lemma_count_true_more, lemma_count_true_none,
};
use vstd::prelude::*;

verus! {

/// Whether edge `k` of the node at `u` leads to the node at `v`.
pub open spec fn leads(g: Seq<NodeModel>, u: int, k: int, v: int) -> bool {
    0 <= k < g[u].edges.len() && g[u].edges[k].to.label == g[v].label
}

/// Whether some edge of the node at `u` leads to the node at `v`.
pub open spec fn adjacent(g: Seq<NodeModel>, u: int, v: int) -> bool {
    exists|k: int| #[trigger] leads(g, u, k, v)
}

/// Whether two different edges of the node at `u` lead to the node at `v`.
pub open spec fn twice(g: Seq<NodeModel>, u: int, v: int) -> bool {
    exists|a: int, b: int| a < b && #[trigger] leads(g, u, a, v) && #[trigger] leads(g, u, b, v)
}

/// Whether every edge has its like in the other direction: where one edge
/// leads from a node to another, one of the same weight leads back, and
/// where two do, two lead back.
#[verifier::opaque]
pub open spec fn symmetric(g: Seq<NodeModel>) -> bool {
    &&& forall|u: int, v: int|
        0 <= u < g.len() && 0 <= v < g.len() && #[trigger] adjacent(g, u, v) ==> adjacent(g, v, u)
    &&& forall|u: int, v: int|
        0 <= u < g.len() && 0 <= v < g.len() && #[trigger] twice(g, u, v) ==> twice(g, v, u)
    &&& mirrored(g)
}

/// Whether `p` lists three or more different nodes, each edge_of_weight to the next
/// and the last to the first.
pub open spec fn is_ring(g: Seq<NodeModel>, p: Seq<int>) -> bool {
    &&& p.len() >= 3
    &&& p.no_duplicates()
    &&& forall|i: int| 0 <= i < p.len() ==> 0 <= #[trigger] p[i] < g.len()
    &&& forall|i: int| 0 <= i < p.len() - 1 ==> #[trigger] adjacent(g, p[i], p[i + 1])
    &&& adjacent(g, p.last(), p[0])
}

/// Whether some walk that uses no edge twice returns to its start: a node is
/// its own neighbour, two edges join the same two nodes, or three or more
/// different nodes form a ring.
pub open spec fn has_ring(g: Seq<NodeModel>) -> bool {
    ||| exists|u: int| 0 <= u < g.len() && #[trigger] adjacent(g, u, u)
    ||| exists|u: int, v: int| 0 <= u < g.len() && 0 <= v < g.len() && #[trigger] twice(g, u, v)
    ||| exists|p: Seq<int>| #[trigger] is_ring(g, p)
}

/// A graph without nodes has every edge in both directions.
pub(super) proof fn lemma_symmetric_empty(g: Seq<NodeModel>)
    requires
        g.len() == 0,
    ensures
        symmetric(g),
{
    reveal(symmetric);
}

/// A graph that gains a node without edges, under a label it did not have,
/// keeps every edge in both directions.
pub(super) proof fn lemma_symmetric_push(g: Seq<NodeModel>, x: NodeModel)
    requires
        symmetric(g),
        x.edges.len() == 0,
        !has_label(g, x.label),
        forall|i: int| 0 <= i < g.len() ==> node_sound(g, #[trigger] g[i]),
    ensures
        symmetric(g.push(x)),
{
    reveal(symmetric);
    let h = g.push(x);
    assert forall|u: int, k: int, v: int|
        0 <= u < h.len() && 0 <= v < h.len() && #[trigger] leads(h, u, k, v) implies u < g.len()
        && v < g.len() && leads(g, u, k, v) by {
        assert(u < g.len());
        assert(h[u] == g[u]);
        assert(node_sound(g, g[u]));
        assert(has_label(g, g[u].edges[k].to.label));
    }
    assert forall|u: int, k: int, v: int|
        0 <= u < g.len() && 0 <= v < g.len() && #[trigger] leads(g, u, k, v) implies leads(
        h,
        u,
        k,
        v,
    ) by {
        assert(h[u] == g[u] && h[v] == g[v]);
    }
    assert forall|u: int, v: int|
        0 <= u < h.len() && 0 <= v < h.len() && #[trigger] adjacent(h, u, v) implies adjacent(
        h,
        v,
        u,
    ) by {
        let k = choose|k: int| leads(h, u, k, v);
        assert(leads(g, u, k, v));
        assert(adjacent(g, u, v));
        let back = choose|back: int| leads(g, v, back, u);
        assert(leads(h, v, back, u));
    }
    assert forall|u: int, v: int|
        0 <= u < h.len() && 0 <= v < h.len() && #[trigger] twice(h, u, v) implies twice(h, v, u) by {
        let (a, b) = choose|a: int, b: int| a < b && leads(h, u, a, v) && leads(h, u, b, v);
        assert(leads(g, u, a, v) && leads(g, u, b, v));
        assert(twice(g, u, v));
        let (c, d) = choose|c: int, d: int| c < d && leads(g, v, c, u) && leads(g, v, d, u);
        assert(leads(h, v, c, u) && leads(h, v, d, u));
    }
    assert forall|a: int, k: int, b: int|
        0 <= a < h.len() && 0 <= b < h.len() && #[trigger] leads(h, a, k, b) implies edge_of_weight(
        h,
        b,
        a,
        h[a].edges[k].weight as int,
    ) by {
        assert(leads(g, a, k, b));
        assert(h[a] == g[a] && h[b] == g[b]);
        assert(edge_of_weight(g, b, a, g[a].edges[k].weight as int));
        let back = choose|back: int| #[trigger]
            leads(g, b, back, a) && g[b].edges[back].weight == g[a].edges[k].weight;
        assert(leads(h, b, back, a));
    }
}

/// A graph that gains an edge from one node to another and one back keeps
/// every edge in both directions.
pub(super) proof fn lemma_symmetric_with_edges(g: Seq<NodeModel>, i: int, j: int, w: i32)
    requires
        symmetric(g),
        forall|a: int, b: int|
            0 <= a < b < g.len() ==> (#[trigger] g[a]).label != (#[trigger] g[b]).label,
        0 <= i < g.len(),
        0 <= j < g.len(),
    ensures
        symmetric(with_edge(with_edge(g, i, g[j], w), j, g[i], w)),
{
    reveal(symmetric);
    let mid = with_edge(g, i, g[j], w);
    let h = with_edge(mid, j, g[i], w);
    let last = h[j].edges.len() - 1;
    assert(h.len() == g.len());
    assert forall|u: int| 0 <= u < g.len() implies (#[trigger] h[u]).label == g[u].label by {
        assert(mid[u].label == g[u].label);
    }
    assert forall|u: int, k: int, v: int|
        0 <= u < g.len() && 0 <= v < g.len() && #[trigger] leads(g, u, k, v) implies leads(
        h,
        u,
        k,
        v,
    ) by {
        assert(mid[u].edges[k] == g[u].edges[k]);
        assert(h[u].edges[k] == g[u].edges[k]);
        assert(h[v].label == g[v].label);
    }
    assert(leads(h, i, g[i].edges.len() as int, j)) by {
        assert(mid[i].edges[g[i].edges.len() as int].to.label == g[j].label);
        assert(h[j].label == g[j].label);
    }
    assert(leads(h, j, last, i)) by {
        assert(h[i].label == g[i].label);
    }
    assert(last >= g[j].edges.len());
    assert(i == j ==> last > g[i].edges.len());
    assert forall|u: int, k: int, v: int|
        0 <= u < g.len() && 0 <= v < g.len() && #[trigger] leads(h, u, k, v) implies if k
        < g[u].edges.len() {
        leads(g, u, k, v)
    } else {
        (u == i && v == j) || (u == j && v == i)
    } by {
        assert(h[v].label == g[v].label);
        if k < g[u].edges.len() {
            assert(mid[u].edges[k] == g[u].edges[k]);
            assert(h[u].edges[k] == g[u].edges[k]);
        } else {
            let far = if h[u].edges[k].to.label == g[j].label {
                j
            } else {
                i
            };
            assert(u == i || u == j);
            assert(h[u].edges[k].to.label == g[far].label);
            if v < far {
                assert(g[v].label != g[far].label);
            } else if far < v {
                assert(g[far].label != g[v].label);
            }
            assert(v == far);
            if i != j {
                assert(h[i].edges.len() == g[i].edges.len() + 1);
                assert(mid[j].edges == g[j].edges);
                assert(h[j].edges.len() == g[j].edges.len() + 1);
            }
        }
    }
    assert forall|u: int, v: int|
        0 <= u < h.len() && 0 <= v < h.len() && #[trigger] adjacent(h, u, v) implies adjacent(
        h,
        v,
        u,
    ) by {
        let k = choose|k: int| leads(h, u, k, v);
        if k < g[u].edges.len() {
            assert(leads(g, u, k, v));
            assert(adjacent(g, u, v));
            let back = choose|back: int| leads(g, v, back, u);
            assert(leads(h, v, back, u));
        }
    }
    assert forall|u: int, v: int|
        0 <= u < h.len() && 0 <= v < h.len() && #[trigger] twice(h, u, v) implies twice(h, v, u) by {
        let (a, b) = choose|a: int, b: int| a < b && leads(h, u, a, v) && leads(h, u, b, v);
        if u != v {
            assert(i != j || !(u == i && v == j));
            if b < g[u].edges.len() {
                assert(leads(g, u, a, v) && leads(g, u, b, v));
                assert(twice(g, u, v));
                let (c, d) = choose|c: int, d: int| c < d && leads(g, v, c, u) && leads(g, v, d, u);
                assert(leads(h, v, c, u) && leads(h, v, d, u));
            } else {
                assert(i != j);
                assert(mid[j].edges == g[j].edges);
                assert(h[u].edges.len() == g[u].edges.len() + 1);
                assert(a < g[u].edges.len());
                assert(leads(g, u, a, v));
                assert(adjacent(g, u, v));
                let back = choose|back: int| leads(g, v, back, u);
                assert(leads(h, v, back, u));
                assert(h[v].edges.len() == g[v].edges.len() + 1);
                assert(leads(h, v, g[v].edges.len() as int, u));
            }
        }
    }
    assert(h[i].edges[g[i].edges.len() as int].weight == w) by {
        assert(mid[i].edges[g[i].edges.len() as int].weight == w);
    }
    assert(h[j].edges[last].weight == w);
    assert forall|a: int, k: int, b: int|
        0 <= a < h.len() && 0 <= b < h.len() && #[trigger] leads(h, a, k, b) implies edge_of_weight(
        h,
        b,
        a,
        h[a].edges[k].weight as int,
    ) by {
        if k < g[a].edges.len() {
            assert(leads(g, a, k, b));
            assert(mid[a].edges[k] == g[a].edges[k]);
            assert(h[a].edges[k] == g[a].edges[k]);
            assert(edge_of_weight(g, b, a, g[a].edges[k].weight as int));
            let back = choose|back: int| #[trigger]
                leads(g, b, back, a) && g[b].edges[back].weight == g[a].edges[k].weight;
            assert(leads(h, b, back, a));
            assert(mid[b].edges[back] == g[b].edges[back]);
            assert(h[b].edges[back] == g[b].edges[back]);
        } else {
            assert(h[a].edges[k].weight == w) by {
                if i != j {
                    assert(mid[j].edges == g[j].edges);
                } else {
                    assert(mid[i].edges[g[i].edges.len() as int].weight == w);
                }
            }
            if a == i && b == j {
                assert(leads(h, j, last, i));
            } else {
                assert(leads(h, i, g[i].edges.len() as int, j));
            }
        }
    }
}

/// What a search has found out so far: for each node met the node it was
/// entered from (or -1), the edge it was entered by and when it was met;
/// which nodes are done with; and the nodes entered and not yet left, in the
/// order they were entered.
struct Scan {
    parent: Seq<int>,
    via: Seq<int>,
    rank: Seq<int>,
    black: Seq<bool>,
    path: Seq<int>,
    clock: int,
}

spec fn distinct(g: Seq<NodeModel>) -> bool {
    forall|i: int, j: int| 0 <= i < j < g.len() ==> (#[trigger] g[i]).label != (#[trigger] g[j]).label
}

spec fn marks_ok(g: Seq<NodeModel>, visited: Seq<bool>, s: Scan) -> bool {
    &&& visited.len() == g.len()
    &&& s.parent.len() == g.len()
    &&& s.via.len() == g.len()
    &&& s.rank.len() == g.len()
    &&& s.black.len() == g.len()
    &&& forall|x: int| 0 <= x < g.len() && #[trigger] s.black[x] ==> visited[x]
    &&& forall|x: int| 0 <= x < g.len() && visited[x] ==> #[trigger] s.rank[x] < s.clock
    &&& forall|x: int|
        0 <= x < g.len() && visited[x] && #[trigger] s.parent[x] >= 0 ==> {
            &&& s.parent[x] < g.len()
            &&& visited[s.parent[x]]
            &&& s.rank[s.parent[x]] < s.rank[x]
            &&& leads(g, s.parent[x], s.via[x], x)
        }
}

spec fn path_ok(g: Seq<NodeModel>, visited: Seq<bool>, s: Scan) -> bool {
    &&& s.path.no_duplicates()
    &&& forall|i: int|
        0 <= i < s.path.len() ==> 0 <= #[trigger] s.path[i] < g.len() && visited[s.path[i]]
            && !s.black[s.path[i]]
    &&& s.path.len() > 0 ==> s.parent[s.path[0]] == -1
    &&& forall|i: int| 1 <= i < s.path.len() ==> #[trigger] s.parent[s.path[i]] == s.path[i - 1]
    &&& forall|x: int|
        0 <= x < g.len() && #[trigger] visited[x] && !s.black[x] ==> s.path.contains(x)
}

spec fn row_ok(g: Seq<NodeModel>, s: Scan, u: int, upto: int) -> bool {
    forall|k: int, v: int|
        0 <= v < g.len() && k < upto && #[trigger] leads(g, u, k, v) ==> v == s.parent[u] || (
        s.black[v] && s.parent[v] == u && s.via[v] == k)
}

spec fn done_ok(g: Seq<NodeModel>, s: Scan) -> bool {
    forall|t: int|
        0 <= t < g.len() && #[trigger] s.black[t] ==> row_ok(g, s, t, g[t].edges.len() as int)
}

spec fn kids_ok(g: Seq<NodeModel>, visited: Seq<bool>, s: Scan, u: int, upto: int) -> bool {
    forall|x: int| 0 <= x < g.len() && visited[x] && #[trigger] s.parent[x] == u ==> s.via[x] < upto
}

spec fn scan_ok(g: Seq<NodeModel>, visited: Seq<bool>, s: Scan) -> bool {
    marks_ok(g, visited, s) && path_ok(g, visited, s) && done_ok(g, s)
}

spec fn grown(a: Seq<bool>, b: Seq<bool>) -> bool {
    a.len() == b.len() && forall|x: int| 0 <= x < a.len() && #[trigger] a[x] ==> b[x]
}

spec fn kept(visited: Seq<bool>, a: Scan, b: Scan) -> bool {
    forall|x: int|
        0 <= x < visited.len() && #[trigger] visited[x] ==> b.parent[x] == a.parent[x] && b.via[x]
            == a.via[x] && b.black[x] == a.black[x]
}

spec fn fresh(before: Seq<bool>, after: Seq<bool>, s: Scan, root: int) -> bool {
    forall|x: int|
        0 <= x < before.len() && #[trigger] after[x] && !before[x] && x != root ==> 0
            <= s.parent[x] < before.len() && !before[s.parent[x]]
}

spec fn entered(s: Scan, u: int, p: int, by: int) -> Scan {
    Scan {
        parent: s.parent.update(u, p),
        via: s.via.update(u, by),
        rank: s.rank.update(u, s.clock),
        black: s.black,
        path: s.path.push(u),
        clock: s.clock + 1,
    }
}

spec fn left(s: Scan, u: int) -> Scan {
    Scan {
        parent: s.parent,
        via: s.via,
        rank: s.rank,
        black: s.black.update(u, true),
        path: s.path.drop_last(),
        clock: s.clock,
    }
}

proof fn lemma_one_far_end(g: Seq<NodeModel>, u: int, k: int, v: int, w: int)
    requires
        distinct(g),
        0 <= v < g.len(),
        0 <= w < g.len(),
        leads(g, u, k, v),
        leads(g, u, k, w),
    ensures
        v == w,
{
    if v < w {
        assert(g[v].label != g[w].label);
    } else if w < v {
        assert(g[w].label != g[v].label);
    }
}

proof fn lemma_enter(g: Seq<NodeModel>, visited: Seq<bool>, s: Scan, u: int, p: int, by: int)
    requires
        scan_ok(g, visited, s),
        0 <= u < g.len(),
        !visited[u],
        (s.path.len() == 0 && p == -1) || (s.path.len() > 0 && p == s.path.last() && leads(
            g,
            p,
            by,
            u,
        )),
    ensures
        scan_ok(g, visited.update(u, true), entered(s, u, p, by)),
        row_ok(g, entered(s, u, p, by), u, 0),
        kids_ok(g, visited.update(u, true), entered(s, u, p, by), u, 0),
        kept(visited, s, entered(s, u, p, by)),
        fresh(visited, visited.update(u, true), entered(s, u, p, by), u),
        grown(visited, visited.update(u, true)),
{
    let v1 = visited.update(u, true);
    let s1 = entered(s, u, p, by);
    if s.path.len() > 0 {
        assert(visited[s.path[s.path.len() - 1]]);
    }
    assert(p != u);
    assert(!s.black[u]);
    assert forall|x: int| 0 <= x < g.len() && v1[x] implies #[trigger] s1.rank[x] < s1.clock by {
        if x != u {
            assert(s.rank[x] < s.clock);
        }
    }
    assert forall|x: int| 0 <= x < g.len() && v1[x] && #[trigger] s1.parent[x] >= 0 implies {
        &&& s1.parent[x] < g.len()
        &&& v1[s1.parent[x]]
        &&& s1.rank[s1.parent[x]] < s1.rank[x]
        &&& leads(g, s1.parent[x], s1.via[x], x)
    } by {
        if x != u {
            assert(s.parent[x] >= 0);
            assert(s.parent[x] != u);
        } else {
            assert(s.rank[p] < s.clock);
        }
    }
    assert(marks_ok(g, v1, s1));
    assert(s1.path.no_duplicates()) by {
        assert forall|i: int, j: int| 0 <= i < s1.path.len() && 0 <= j < s1.path.len() && i
            != j implies s1.path[i] != s1.path[j] by {
            if i < s.path.len() {
                assert(visited[s.path[i]]);
            }
            if j < s.path.len() {
                assert(visited[s.path[j]]);
            }
        }
    }
    assert forall|i: int| 0 <= i < s1.path.len() implies 0 <= #[trigger] s1.path[i] < g.len()
        && v1[s1.path[i]] && !s1.black[s1.path[i]] by {
        if i < s.path.len() {
            assert(visited[s.path[i]]);
        }
    }
    assert(s1.parent[s1.path[0]] == -1) by {
        if s.path.len() > 0 {
            assert(visited[s.path[0]]);
        }
    }
    assert forall|i: int| 1 <= i < s1.path.len() implies #[trigger] s1.parent[s1.path[i]]
        == s1.path[i - 1] by {
        if i < s.path.len() {
            assert(visited[s.path[i]]);
            assert(s.parent[s.path[i]] == s.path[i - 1]);
        }
    }
    assert forall|x: int| 0 <= x < g.len() && #[trigger] v1[x] && !s1.black[x] implies s1.path.contains(
        x,
    ) by {
        if x == u {
            assert(s1.path[s.path.len() as int] == u);
        } else {
            assert(visited[x]);
            let i = choose|i: int| 0 <= i < s.path.len() && s.path[i] == x;
            assert(s1.path[i] == x);
        }
    }
    assert(path_ok(g, v1, s1));
    assert forall|t: int| 0 <= t < g.len() && #[trigger] s1.black[t] implies row_ok(
        g,
        s1,
        t,
        g[t].edges.len() as int,
    ) by {
        assert(row_ok(g, s, t, g[t].edges.len() as int));
        assert(t != u);
        assert forall|k: int, v: int|
            0 <= v < g.len() && k < g[t].edges.len() && #[trigger] leads(g, t, k, v) implies v
            == s1.parent[t] || (s1.black[v] && s1.parent[v] == t && s1.via[v] == k) by {
            if v != s.parent[t] {
                assert(s.black[v]);
                assert(v != u);
            }
        }
    }
    assert forall|x: int| 0 <= x < g.len() && v1[x] && #[trigger] s1.parent[x] == u implies s1.via[x]
        < 0 by {
        if x != u {
            assert(s.parent[x] >= 0);
            assert(visited[s.parent[x]]);
        }
    }
}

proof fn lemma_leave(g: Seq<NodeModel>, visited: Seq<bool>, s: Scan, u: int)
    requires
        scan_ok(g, visited, s),
        s.path.len() > 0,
        s.path.last() == u,
        row_ok(g, s, u, g[u].edges.len() as int),
    ensures
        scan_ok(g, visited, left(s, u)),
        left(s, u).black[u],
{
    let s2 = left(s, u);
    let last = s.path.len() - 1;
    assert(0 <= s.path[last] < g.len());
    assert(visited[s.path[last]]);
    assert forall|x: int| 0 <= x < g.len() && #[trigger] s2.black[x] implies visited[x] by {
        if x != u {
            assert(s.black[x]);
        }
    }
    assert(marks_ok(g, visited, s2));
    assert forall|i: int| 0 <= i < s2.path.len() implies 0 <= #[trigger] s2.path[i] < g.len()
        && visited[s2.path[i]] && !s2.black[s2.path[i]] by {
        assert(s.path[i] != s.path[last]);
        assert(visited[s.path[i]]);
    }
    assert forall|i: int| 1 <= i < s2.path.len() implies #[trigger] s2.parent[s2.path[i]]
        == s2.path[i - 1] by {
        assert(s.parent[s.path[i]] == s.path[i - 1]);
    }
    assert forall|x: int| 0 <= x < g.len() && #[trigger] visited[x] && !s2.black[x] implies s2.path.contains(
        x,
    ) by {
        assert(!s.black[x]);
        let i = choose|i: int| 0 <= i < s.path.len() && s.path[i] == x;
        assert(s2.path[i] == x);
    }
    assert(s2.path.no_duplicates());
    if s2.path.len() > 0 {
        assert(s2.path[0] == s.path[0]);
    }
    assert(path_ok(g, visited, s2));
    assert forall|t: int| 0 <= t < g.len() && #[trigger] s2.black[t] implies row_ok(
        g,
        s2,
        t,
        g[t].edges.len() as int,
    ) by {
        if t != u {
            assert(s.black[t]);
        }
        assert(row_ok(g, s, t, g[t].edges.len() as int));
    }
}

/// An edge from the node being searched to a node met before, other than
/// the one the search came from, closes a ring.
proof fn lemma_found(g: Seq<NodeModel>, visited: Seq<bool>, s: Scan, u: int, k: int, t: int)
    requires
        distinct(g),
        symmetric(g),
        scan_ok(g, visited, s),
        s.path.len() > 0,
        s.path.last() == u,
        0 <= t < g.len(),
        leads(g, u, k, t),
        visited[t],
        t != s.parent[u],
        kids_ok(g, visited, s, u, k),
    ensures
        has_ring(g),
{
    let last = s.path.len() - 1;
    assert(0 <= s.path[last] < g.len() && !s.black[s.path[last]]);
    if t == u {
        assert(adjacent(g, u, u));
    } else if s.black[t] {
        assert(adjacent(g, u, t));
        assert(adjacent(g, t, u)) by {
            reveal(symmetric);
        }
        let back = choose|back: int| leads(g, t, back, u);
        assert(row_ok(g, s, t, g[t].edges.len() as int));
        assert(u == s.parent[t]);
        assert(s.via[t] < k);
        assert(leads(g, u, s.via[t], t));
        assert(twice(g, u, t));
    } else {
        assert(s.path.contains(t));
        let i = choose|i: int| 0 <= i < s.path.len() && s.path[i] == t;
        if last >= 1 {
            assert(s.parent[s.path[last]] == s.path[last - 1]);
        }
        assert(i <= last - 2);
        let p = s.path.subrange(i, last + 1);
        assert forall|j: int| 0 <= j < p.len() - 1 implies #[trigger] adjacent(g, p[j], p[j + 1]) by {
            let x = s.path[i + j + 1];
            assert(s.parent[s.path[i + j + 1]] == s.path[i + j]);
            assert(visited[x] && 0 <= s.path[i + j]);
            assert(s.parent[x] >= 0);
            assert(leads(g, s.parent[x], s.via[x], x));
        }
        assert(adjacent(g, p.last(), p[0]));
        assert forall|j: int| 0 <= j < p.len() implies 0 <= #[trigger] p[j] < g.len() by {
            assert(0 <= s.path[i + j] < g.len());
        }
        assert(p.no_duplicates());
        assert(is_ring(g, p));
    }
}

/// A place of `p` whose node was met no earlier than any other node of `p`.
proof fn lemma_latest(rank: Seq<int>, p: Seq<int>, upto: int) -> (m: int)
    requires
        0 < upto <= p.len(),
    ensures
        0 <= m < upto,
        forall|j: int| 0 <= j < upto ==> rank[#[trigger] p[j]] <= rank[p[m]],
    decreases upto,
{
    if upto == 1 {
        0
    } else {
        let m = lemma_latest(rank, p, upto - 1);
        if rank[p[upto - 1]] > rank[p[m]] {
            upto - 1
        } else {
            m
        }
    }
}

/// In a finished search, a neighbour of a node met no later than the node
/// is the one the node was entered from.
proof fn lemma_earlier_neighbour(g: Seq<NodeModel>, visited: Seq<bool>, s: Scan, x: int, y: int)
    requires
        scan_ok(g, visited, s),
        0 <= x < g.len(),
        0 <= y < g.len(),
        s.black[x],
        s.black[y],
        adjacent(g, x, y),
        s.rank[y] <= s.rank[x],
    ensures
        y == s.parent[x],
{
    let k = choose|k: int| leads(g, x, k, y);
    assert(row_ok(g, s, x, g[x].edges.len() as int));
    if y != s.parent[x] {
        assert(s.parent[y] == x);
        assert(visited[y]);
        assert(s.parent[y] >= 0);
    }
}

/// A search that met every node and found nothing shows that the graph holds
/// no ring.
proof fn lemma_no_ring(g: Seq<NodeModel>, visited: Seq<bool>, s: Scan)
    requires
        distinct(g),
        symmetric(g),
        scan_ok(g, visited, s),
        forall|x: int| 0 <= x < g.len() ==> #[trigger] s.black[x],
    ensures
        !has_ring(g),
{
    assert forall|u: int| 0 <= u < g.len() implies !#[trigger] adjacent(g, u, u) by {
        if adjacent(g, u, u) {
            assert(s.black[u]);
            lemma_earlier_neighbour(g, visited, s, u, u);
            assert(visited[u]);
            assert(s.parent[u] >= 0);
        }
    }
    assert forall|u: int, v: int| 0 <= u < g.len() && 0 <= v < g.len() implies !#[trigger] twice(
        g,
        u,
        v,
    ) by {
        if twice(g, u, v) {
            assert(twice(g, v, u)) by {
                reveal(symmetric);
            }
            lemma_twice_parent(g, visited, s, u, v);
            lemma_twice_parent(g, visited, s, v, u);
            assert(s.black[u] && s.black[v]);
            assert(visited[u] && visited[v]);
            assert(s.parent[u] >= 0 && s.parent[v] >= 0);
        }
    }
    assert forall|p: Seq<int>| !#[trigger] is_ring(g, p) by {
        if is_ring(g, p) {
            let n = p.len() as int;
            let m = lemma_latest(s.rank, p, n);
            let x = p[m];
            let a = if m == 0 {
                p[n - 1]
            } else {
                p[m - 1]
            };
            let b = if m == n - 1 {
                p[0]
            } else {
                p[m + 1]
            };
            assert(0 <= p[m] < g.len());
            assert(0 <= p[n - 1] < g.len() && 0 <= p[0] < g.len());
            if m > 0 {
                assert(0 <= p[m - 1] < g.len());
                assert(adjacent(g, p[m - 1], p[m - 1 + 1]));
            }
            if m < n - 1 {
                assert(0 <= p[m + 1] < g.len());
                assert(adjacent(g, p[m], p[m + 1]));
            }
            assert(adjacent(g, a, x));
            assert(adjacent(g, x, b));
            assert(adjacent(g, x, a)) by {
                reveal(symmetric);
            }
            assert(s.black[x] && s.black[a] && s.black[b]);
            lemma_earlier_neighbour(g, visited, s, x, a);
            lemma_earlier_neighbour(g, visited, s, x, b);
            assert(a != b);
        }
    }
}

/// In a finished search, a node edge_of_weight twice to another was entered from it.
proof fn lemma_twice_parent(g: Seq<NodeModel>, visited: Seq<bool>, s: Scan, u: int, v: int)
    requires
        scan_ok(g, visited, s),
        0 <= u < g.len(),
        0 <= v < g.len(),
        s.black[u],
        twice(g, u, v),
    ensures
        v == s.parent[u],
{
    let (a, b) = choose|a: int, b: int| a < b && leads(g, u, a, v) && leads(g, u, b, v);
    assert(row_ok(g, s, u, g[u].edges.len() as int));
}

/// What a search knows after the search of a neighbour came back empty.
proof fn lemma_back(
    g: Seq<NodeModel>,
    before: Seq<bool>,
    cur: Scan,
    after: Seq<bool>,
    next: Scan,
    u: int,
    k: int,
    t: int,
)
    requires
        distinct(g),
        0 <= u < g.len(),
        0 <= t < g.len(),
        before.len() == g.len(),
        before[u],
        !before[t],
        leads(g, u, k, t),
        row_ok(g, cur, u, k),
        kids_ok(g, before, cur, u, k),
        marks_ok(g, before, cur),
        grown(before, after),
        kept(before, cur, next),
        fresh(before, after, next, t),
        next.black[t],
        next.parent[t] == u,
        next.via[t] == k,
    ensures
        row_ok(g, next, u, k + 1),
        kids_ok(g, after, next, u, k + 1),
{
    assert forall|j: int, v: int| 0 <= v < g.len() && j < k + 1 && #[trigger] leads(g, u, j, v) implies v
        == next.parent[u] || (next.black[v] && next.parent[v] == u && next.via[v] == j) by {
        if j == k {
            lemma_one_far_end(g, u, k, v, t);
        } else if v != cur.parent[u] {
            assert(cur.black[v]);
            assert(before[v]);
        }
    }
    assert forall|x: int| 0 <= x < g.len() && after[x] && #[trigger] next.parent[x] == u implies next.via[x]
        < k + 1 by {
        if before[x] {
            assert(cur.parent[x] == u);
        } else if x != t {
            assert(after[x]);
        }
    }
}

/// What a search knows after passing over the edge it came by.
proof fn lemma_pass(g: Seq<NodeModel>, s: Scan, u: int, k: int, t: int)
    requires
        distinct(g),
        0 <= t < g.len(),
        leads(g, u, k, t),
        t == s.parent[u],
        row_ok(g, s, u, k),
    ensures
        row_ok(g, s, u, k + 1),
{
    assert forall|j: int, v: int| 0 <= v < g.len() && j < k + 1 && #[trigger] leads(g, u, j, v) implies v
        == s.parent[u] || (s.black[v] && s.parent[v] == u && s.via[v] == j) by {
        if j == k {
            lemma_one_far_end(g, u, k, v, t);
        }
    }
}

proof fn lemma_carry(v0: Seq<bool>, s: Scan, vc: Seq<bool>, cur: Scan, vn: Seq<bool>, next: Scan, u: int, t: int)
    requires
        0 <= u < v0.len(),
        !v0[u],
        vc[u],
        grown(v0, vc),
        grown(vc, vn),
        kept(v0, s, cur),
        kept(vc, cur, next),
        fresh(v0, vc, cur, u),
        fresh(vc, vn, next, t),
        next.parent[t] == u,
    ensures
        grown(v0, vn),
        kept(v0, s, next),
        fresh(v0, vn, next, u),
{
    assert forall|x: int| 0 <= x < v0.len() && #[trigger] v0[x] implies next.parent[x] == s.parent[x]
        && next.via[x] == s.via[x] && next.black[x] == s.black[x] by {
        assert(vc[x]);
    }
    assert forall|x: int| 0 <= x < v0.len() && #[trigger] vn[x] && !v0[x] && x != u implies 0
        <= next.parent[x] < v0.len() && !v0[next.parent[x]] by {
        if vc[x] {
            assert(0 <= cur.parent[x] < v0.len() && !v0[cur.parent[x]]);
        } else if x != t {
            let q = next.parent[x];
            assert(!vc[q]);
            if v0[q] {
                assert(vc[q]);
            }
        }
    }
}

impl WeightedGraphs {
    /// Searches from node `u`, entered from `parent`, and says whether an
    /// edge led to a node met before other than the one it came from.
    fn has_cycle_(
        &self,
        u: usize,
        parent: Option<usize>,
        visited: &mut Vec<bool>,
        Ghost(s): Ghost<Scan>,
        Ghost(by): Ghost<int>,
    ) -> (r: (bool, Ghost<Scan>))
        requires
            self.wf(),
            u < self@.len(),
            !old(visited)@[u as int],
            scan_ok(self@, old(visited)@, s),
            match parent {
                None => s.path.len() == 0,
                Some(p) => s.path.len() > 0 && s.path.last() == p && leads(
                    self@,
                    p as int,
                    by,
                    u as int,
                ),
            },
        ensures
            grown(old(visited)@, final(visited)@),
            r.0 ==> has_ring(self@),
            !r.0 ==> {
                &&& scan_ok(self@, final(visited)@, r.1@)
                &&& r.1@.path == s.path
                &&& r.1@.black[u as int]
                &&& r.1@.parent[u as int] == (match parent {
                    None => -1,
                    Some(p) => p as int,
                })
                &&& r.1@.via[u as int] == by
                &&& kept(old(visited)@, s, r.1@)
                &&& fresh(old(visited)@, final(visited)@, r.1@, u as int)
            },
        decreases self@.len() - count_true(old(visited)@),
    {
        let ghost g = self@;
        let ghost v0 = visited@;
        let ghost p: int = match parent {
            None => -1,
            Some(p) => p as int,
        };
        let ghost mut cur = entered(s, u as int, p, by);
        proof {
            lemma_enter(g, v0, s, u as int, p, by);
            lemma_edges_model(self.nodes@[u as int].edges@);
        }
        visited[u] = true;
        let mut k: usize = 0;
        while k < self.nodes[u].edges.len()
            invariant
                g == self@,
                self.wf(),
                u < g.len(),
                u < self.nodes.len(),
                k <= self.nodes[u as int].edges.len(),
                self.nodes[u as int].edges.len() == g[u as int].edges.len(),
                v0 == old(visited)@,
                v0.len() == g.len(),
                !v0[u as int],
                visited@[u as int],
                scan_ok(g, visited@, cur),
                cur.path == s.path.push(u as int),
                cur.parent[u as int] == p,
                cur.via[u as int] == by,
                row_ok(g, cur, u as int, k as int),
                kids_ok(g, visited@, cur, u as int, k as int),
                grown(v0, visited@),
                kept(v0, s, cur),
                fresh(v0, visited@, cur, u as int),
                match parent {
                    None => p == -1,
                    Some(q) => p == q,
                },
            decreases self.nodes[u as int].edges.len() - k,
        {
            let edge = &self.nodes[u].edges[k];
            proof {
                lemma_edges_model(self.nodes@[u as int].edges@);
                assert(g[u as int].edges[k as int] == edge@);
                assert(node_sound(g, g[u as int]));
                assert(has_label(g, g[u as int].edges[k as int].to.label));
            }
            let found = self.position(edge.to().label());
            let t = found.unwrap();
            proof {
                assert(leads(g, u as int, k as int, t as int));
            }
            let came_by = match parent {
                Some(q) => q == t,
                None => false,
            };
            if came_by {
                proof {
                    lemma_pass(g, cur, u as int, k as int, t as int);
                }
            } else {
                if visited[t] {
                    proof {
                        lemma_found(g, visited@, cur, u as int, k as int, t as int);
                    }
                    return (true, Ghost(cur));
                }
                let ghost vc = visited@;
                proof {
                    lemma_count_true_more(v0, vc, u as int);
                    lemma_count_true_bound(vc);
                }
                let (ringed, Ghost(next)) = self.has_cycle_(
                    t,
                    Some(u),
                    visited,
                    Ghost(cur),
                    Ghost(k as int),
                );
                if ringed {
                    proof {
                        assert(grown(v0, visited@));
                    }
                    return (true, Ghost(next));
                }
                proof {
                    lemma_back(g, vc, cur, visited@, next, u as int, k as int, t as int);
                    lemma_carry(v0, s, vc, cur, visited@, next, u as int, t as int);
                    assert(next.parent[u as int] == cur.parent[u as int]);
                    assert(next.via[u as int] == cur.via[u as int]);
                    cur = next;
                }
            }
            k += 1;
        }
        proof {
            lemma_leave(g, visited@, cur, u as int);
            assert(cur.path.drop_last() =~= s.path);
            cur = left(cur, u as int);
        }
        (false, Ghost(cur))
    }

    /// Whether some walk that uses no edge twice returns to its start.
    pub fn has_cycle(&self) -> (r: bool)
        requires
            self.wf(),
        ensures
            r == has_ring(self@),
    {
        let ghost g = self@;
        let mut visited: Vec<bool> = Vec::new();
        let mut i: usize = 0;
        while i < self.nodes.len()
            invariant
                i <= self.nodes.len(),
                visited@.len() == i,
                forall|j: int| 0 <= j < i ==> !(#[trigger] visited@[j]),
            decreases self.nodes.len() - i,
        {
            visited.push(false);
            i += 1;
        }
        let ghost mut cur = Scan {
            parent: Seq::new(g.len(), |x: int| -1),
            via: Seq::new(g.len(), |x: int| 0),
            rank: Seq::new(g.len(), |x: int| 0),
            black: Seq::new(g.len(), |x: int| false),
            path: Seq::empty(),
            clock: 0,
        };
        proof {
            lemma_count_true_none(visited@);
            assert(scan_ok(g, visited@, cur));
        }
        i = 0;
        while i < self.nodes.len()
            invariant
                g == self@,
                self.wf(),
                i <= self.nodes.len(),
                self.nodes.len() == g.len(),
                scan_ok(g, visited@, cur),
                cur.path.len() == 0,
                forall|x: int| 0 <= x < i ==> #[trigger] visited@[x],
            decreases self.nodes.len() - i,
        {
            if !visited[i] {
                let ghost before = visited@;
                let (ringed, Ghost(next)) = self.has_cycle_(
                    i,
                    None,
                    &mut visited,
                    Ghost(cur),
                    Ghost(0),
                );
                if ringed {
                    return true;
                }
                proof {
                    cur = next;
                    assert forall|x: int| 0 <= x < i + 1 implies #[trigger] visited@[x] by {
                        if x < i {
                            assert(before[x]);
                        }
                    }
                }
            }
            i += 1;
        }
        proof {
            assert forall|x: int| 0 <= x < g.len() implies #[trigger] cur.black[x] by {
                if !cur.black[x] {
                    assert(visited@[x]);
                    assert(cur.path.contains(x));
                }
            }
            lemma_no_ring(g, visited@, cur);
        }
        false
    }
}

} // verus!
