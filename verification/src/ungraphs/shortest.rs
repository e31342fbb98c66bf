//! The search for a route between two nodes of a weighted graph.

use super::lightest::{
    is_walk, joined_by_walk, lemma_walk_nonnegative, lemma_walk_prefix, lemma_walk_step,
    lemma_walk_whole, lightest, nonnegative, walk_labels, walk_weight,
};
use super::{
    has_label, index_of, lemma_edges_model, lemma_index_of, node_sound, NodeModel, Path,
    WeightedGraphs,
};
use crate::marks::{
    count_true, lemma_count_true_bound, lemma_count_true_none, lemma_count_true_set,
};
use crate::min_queue::{no_entries, queue_entries, queue_new, queue_pop, queue_push};
use crate::text::reverse_strings;
use vstd::prelude::*;

verus! {

/// Whether `g` holds an edge from label `a` to label `b`, whatever its weight.
pub open spec fn linked(g: Seq<NodeModel>, a: Seq<char>, b: Seq<char>) -> bool {
    exists|i: int, k: int|
        0 <= i < g.len() && 0 <= k < g[i].edges.len() && g[i].label == a && (
        #[trigger] g[i].edges[k]).to.label == b
}

/// The largest size of a weight: no `i32` value is farther from zero.
spec fn weight_limit() -> int {
    0x8000_0000
}

/// Whether `g` holds an edge from node `u` to the label of node `v` by which
/// the distance of `v` is the distance of `u` and the weight of the edge.
spec fn stepped(g: Seq<NodeModel>, dist: Seq<i128>, u: int, v: int) -> bool {
    exists|k: int|
        0 <= k < g[u].edges.len() && (#[trigger] g[u].edges[k]).to.label == g[v].label && dist[v]
            == dist[u] + g[u].edges[k].weight
}

/// `d` lies within `k` steps of size `lim` of zero.
spec fn within(d: int, k: int, lim: int) -> bool {
    -(k * lim) <= d <= k * lim
}

/// What lies within `k` steps of zero lies within any greater number of
/// steps.
proof fn lemma_within_grows(d: int, k: int, k2: int, lim: int)
    requires
        within(d, k, lim),
        k <= k2,
        0 <= lim,
    ensures
        within(d, k2, lim),
{
    assert(k * lim <= k2 * lim) by (nonlinear_arith)
        requires
            k <= k2,
            0 <= lim,
    ;
}

/// As many weights as a list can have places, each at the limit, sum to
/// less than `i128::MAX`.
proof fn lemma_limit(n: int)
    requires
        0 < n <= usize::MAX,
    ensures
        0 <= weight_limit(),
        n * weight_limit() < i128::MAX,
{
}

/// One more weight within the limit adds one step and stays within `i128`.
proof fn lemma_within_step(d: int, w: int, k: int, n: int)
    requires
        within(d, k, weight_limit()),
        -weight_limit() <= w <= weight_limit(),
        0 <= k < n <= usize::MAX,
    ensures
        -(i128::MAX) < d + w < i128::MAX,
        within(d + w, k + 1, weight_limit()),
{
    let lim = weight_limit();
    lemma_limit(n);
    assert((k + 1) * lim == k * lim + lim) by (nonlinear_arith);
    assert((k + 1) * lim <= n * lim) by (nonlinear_arith)
        requires
            k + 1 <= n,
            0 <= lim,
    ;
}

/// Whether the search has reached node `v`: it is the start or has a predecessor.
spec fn touched(from: usize, prev: Seq<Option<usize>>, v: int) -> bool {
    v == from || prev[v] is Some
}

/// What the search keeps true between any two of its steps.
#[verifier::opaque]
spec fn search_ok(
    g: Seq<NodeModel>,
    from: usize,
    dist: Seq<i128>,
    prev: Seq<Option<usize>>,
    visited: Seq<bool>,
    rank: Seq<int>,
    entries: Map<(usize, i128), i128>,
) -> bool {
    let n = g.len() as int;
    let cnt = count_true(visited) as int;
    let lim = weight_limit();
    &&& dist.len() == n && prev.len() == n && visited.len() == n && rank.len() == n
    &&& 0 <= from < n
    &&& n <= usize::MAX
    &&& cnt <= n
    &&& forall|v: int|
        0 <= v < n && !(#[trigger] visited[v]) && touched(from, prev, v) ==> entries.dom().contains(
            (v as usize, dist[v]),
        )
    &&& entries.dom().finite()
    &&& prev[from as int] is None
    &&& dist[from as int] == 0
    &&& visited[from as int] || entries =~= map![(from, 0i128) => 0i128]
    &&& forall|v: int|
        0 <= v < n && #[trigger] visited[v] ==> 0 <= rank[v] < cnt && touched(from, prev, v)
            && within(dist[v] as int, cnt - 1, lim)
    &&& forall|v: int|
        0 <= v < n && !(#[trigger] visited[v]) ==> rank[v] == n && (touched(from, prev, v)
            ==> within(dist[v] as int, cnt, lim)) && (!touched(from, prev, v) ==> dist[v]
            == i128::MAX)
    &&& forall|v: int|
        0 <= v < n && (#[trigger] prev[v]) is Some ==> {
            let u = prev[v]->0 as int;
            u < n && visited[u] && rank[u] < rank[v] && stepped(g, dist, u, v)
        }
    &&& forall|e: (usize, i128)| #[trigger]
        entries.dom().contains(e) ==> e.0 < n && touched(from, prev, e.0 as int) && entries[e]
            == e.1 && e.1 >= dist[e.0 as int]
}

/// Whether every weight of `g` is within the limit for its number of nodes.
spec fn fitting(g: Seq<NodeModel>) -> bool {
    forall|i: int, k: int|
        0 <= i < g.len() && 0 <= k < g[i].edges.len() ==> -weight_limit() <= (
        #[trigger] g[i].edges[k]).weight <= weight_limit()
}

/// Every weight is within the limit.
proof fn lemma_fitting(g: Seq<NodeModel>)
    ensures
        fitting(g),
{
}

/// Whether no two nodes of `g` share a label.
spec fn distinct(g: Seq<NodeModel>) -> bool {
    forall|a: int, b: int| 0 <= a < b < g.len() ==> (#[trigger] g[a]).label != (#[trigger] g[b]).label
}

/// Whether no walk from the start to node `v` weighs less than the distance
/// of `v`.
spec fn floor(g: Seq<NodeModel>, from: usize, dist: Seq<i128>, v: int) -> bool {
    forall|ms: Seq<int>, fs: Seq<int>|
        #[trigger] is_walk(g, ms, fs) && ms[0] == from && ms.last() == v ==> dist[v]
            <= walk_weight(g, ms, fs)
}

/// Whether the distance of every visited node is the weight of the lightest
/// walk to it.
#[verifier::opaque]
spec fn floors(g: Seq<NodeModel>, from: usize, dist: Seq<i128>, visited: Seq<bool>) -> bool {
    forall|v: int| 0 <= v < g.len() && #[trigger] visited[v] ==> floor(g, from, dist, v)
}

/// Before any node is visited, every visited node has its lightest distance.
proof fn lemma_floors_start(g: Seq<NodeModel>, from: usize, dist: Seq<i128>, visited: Seq<bool>)
    requires
        forall|v: int| 0 <= v < g.len() ==> !(#[trigger] visited[v]),
    ensures
        floors(g, from, dist, visited),
{
    reveal(floors);
}

/// Visiting a node whose distance is lightest keeps the distances of the
/// visited nodes lightest.
proof fn lemma_floors_visit(
    g: Seq<NodeModel>,
    from: usize,
    dist: Seq<i128>,
    visited: Seq<bool>,
    c: int,
)
    requires
        floors(g, from, dist, visited),
        visited.len() == g.len(),
        0 <= c < visited.len(),
        visited[c] || floor(g, from, dist, c),
    ensures
        floors(g, from, dist, visited.update(c, true)),
{
    reveal(floors);
    let v1 = visited.update(c, true);
    assert forall|v: int| 0 <= v < g.len() && #[trigger] v1[v] implies floor(g, from, dist, v) by {
        if v != c {
            assert(visited[v]);
        }
    }
}

/// Lowering the distance of a node that is not visited keeps the distances
/// of the visited nodes lightest.
proof fn lemma_floors_lower(
    g: Seq<NodeModel>,
    from: usize,
    dist: Seq<i128>,
    visited: Seq<bool>,
    t: int,
    nd: i128,
)
    requires
        floors(g, from, dist, visited),
        visited.len() == g.len(),
        dist.len() == g.len(),
        0 <= t < g.len(),
        !visited[t],
    ensures
        floors(g, from, dist.update(t, nd), visited),
{
    reveal(floors);
    let d1 = dist.update(t, nd);
    assert forall|v: int| 0 <= v < g.len() && #[trigger] visited[v] implies floor(g, from, d1, v) by {
        assert(floor(g, from, dist, v));
        assert(d1[v] == dist[v]);
    }
}

/// Along a walk from the start, the weight so far is at least the distance
/// of the node reached where that node is visited, and at least `p`, no
/// greater than any weight in the queue, from the first node on that is not
/// visited.
proof fn lemma_walk_floor(
    g: Seq<NodeModel>,
    from: usize,
    dist: Seq<i128>,
    prev: Seq<Option<usize>>,
    visited: Seq<bool>,
    rank: Seq<int>,
    entries: Map<(usize, i128), i128>,
    p: int,
    ms: Seq<int>,
    fs: Seq<int>,
    j: int,
)
    requires
        distinct(g),
        fitting(g),
        nonnegative(g),
        search_ok(g, from, dist, prev, visited, rank, entries),
        floors(g, from, dist, visited),
        all_relaxed(g, dist, visited, -1),
        visited[from as int],
        is_walk(g, ms, fs),
        ms[0] == from,
        forall|e: (usize, i128)| #[trigger] entries.dom().contains(e) ==> p <= entries[e],
        0 <= j <= fs.len(),
    ensures
        (visited[ms[j]] && dist[ms[j]] <= walk_weight(g, ms.take(j + 1), fs.take(j))) || p
            <= walk_weight(g, ms.take(j + 1), fs.take(j)),
    decreases j,
{
    if j == 0 {
        reveal(search_ok);
        assert(fs.take(0).len() == 0);
    } else {
        lemma_walk_floor(g, from, dist, prev, visited, rank, entries, p, ms, fs, j - 1);
        lemma_walk_step(g, ms, fs, j - 1);
        let before = walk_weight(g, ms.take(j), fs.take(j - 1));
        let now = walk_weight(g, ms.take(j + 1), fs.take(j));
        let x = ms[j - 1];
        let y = ms[j];
        let k = fs[j - 1];
        assert(0 <= x < g.len());
        assert(0 <= y < g.len());
        assert(0 <= k < g[x].edges.len() && g[x].edges[k].to.label == g[y].label);
        let w = g[x].edges[k].weight;
        assert(w >= 0);
        assert(now == before + w);
        if p <= before {
        } else {
            assert(visited[x] && dist[x] <= before);
            lemma_index_of(g, y);
            assert(relaxed(g, dist, visited, x, k));
            lemma_search_lengths(g, from, dist, prev, visited, rank, entries);
            if visited[y] {
                reveal(floors);
                assert(floor(g, from, dist, y));
                lemma_walk_prefix(g, ms, fs, j);
            } else {
                assert(dist[y] <= dist[x] + w);
                lemma_search_sum(g, from, dist, prev, visited, rank, entries, x as usize, w);
                reveal(search_ok);
                assert(touched(from, prev, y));
                assert(entries.dom().contains((y as usize, dist[y])));
            }
        }
    }
}

/// The node that leaves the queue first among the nodes not yet visited has
/// the weight of the lightest walk to it as its distance.
proof fn lemma_settle(
    g: Seq<NodeModel>,
    from: usize,
    dist: Seq<i128>,
    prev: Seq<Option<usize>>,
    visited: Seq<bool>,
    rank: Seq<int>,
    entries: Map<(usize, i128), i128>,
    entry: (usize, i128),
)
    requires
        distinct(g),
        fitting(g),
        nonnegative(g),
        search_ok(g, from, dist, prev, visited, rank, entries),
        floors(g, from, dist, visited),
        all_relaxed(g, dist, visited, -1),
        entries.dom().contains(entry),
        forall|e: (usize, i128)| #[trigger] entries.dom().contains(e) ==> entries[entry] <= entries[e],
    ensures
        0 <= entry.0 < g.len(),
        visited[entry.0 as int] || floor(g, from, dist, entry.0 as int),
{
    let c = entry.0 as int;
    assert(0 <= c < g.len() && dist[c] <= entries[entry] && (visited[from as int] || entry == (
        from,
        0i128,
    )) && dist[from as int] == 0) by {
        reveal(search_ok);
        if !visited[from as int] {
            assert(entries.dom().contains((from, 0i128)));
        }
    }
    if !visited[c] {
        assert forall|ms: Seq<int>, fs: Seq<int>|
            #[trigger] is_walk(g, ms, fs) && ms[0] == from && ms.last() == c implies dist[c]
            <= walk_weight(g, ms, fs) by {
            if visited[from as int] {
                lemma_walk_floor(
                    g,
                    from,
                    dist,
                    prev,
                    visited,
                    rank,
                    entries,
                    entries[entry] as int,
                    ms,
                    fs,
                    fs.len() as int,
                );
                lemma_walk_whole(g, ms, fs);
            } else {
                lemma_walk_nonnegative(g, ms, fs);
            }
        }
    }
}

/// Once the queue is empty, every node on a walk from the start is visited.
proof fn lemma_walk_visited(
    g: Seq<NodeModel>,
    from: usize,
    dist: Seq<i128>,
    prev: Seq<Option<usize>>,
    visited: Seq<bool>,
    rank: Seq<int>,
    entries: Map<(usize, i128), i128>,
    ms: Seq<int>,
    fs: Seq<int>,
    j: int,
)
    requires
        distinct(g),
        fitting(g),
        search_ok(g, from, dist, prev, visited, rank, entries),
        entries.dom() =~= Set::<(usize, i128)>::empty(),
        all_relaxed(g, dist, visited, -1),
        is_walk(g, ms, fs),
        ms[0] == from,
        0 <= j <= fs.len(),
    ensures
        visited[ms[j]],
        0 <= ms[j] < g.len(),
        ms[j] == from || prev[ms[j]] is Some,
    decreases j,
{
    if j == 0 {
        reveal(search_ok);
        assert(!entries.dom().contains((from, 0i128)));
    } else {
        lemma_walk_visited(g, from, dist, prev, visited, rank, entries, ms, fs, j - 1);
        let x = ms[j - 1];
        let y = ms[j];
        let k = fs[j - 1];
        assert(0 <= y < g.len());
        assert(0 <= k < g[x].edges.len() && g[x].edges[k].to.label == g[y].label);
        let w = g[x].edges[k].weight;
        lemma_index_of(g, y);
        assert(relaxed(g, dist, visited, x, k));
        lemma_search_lengths(g, from, dist, prev, visited, rank, entries);
        lemma_search_sum(g, from, dist, prev, visited, rank, entries, x as usize, w);
        reveal(search_ok);
        if !visited[y] {
            assert(touched(from, prev, y));
            assert(entries.dom().contains((y as usize, dist[y])));
        }
        assert(touched(from, prev, y));
    }
}

/// A chain of predecessors is a walk whose weight is the difference of the
/// distances of its ends.
proof fn lemma_chain_walk(g: Seq<NodeModel>, dist: Seq<i128>, idx: Seq<int>) -> (es: Seq<int>)
    requires
        idx.len() >= 1,
        forall|j: int| 0 <= j < idx.len() ==> 0 <= #[trigger] idx[j] < g.len(),
        forall|j: int| 0 <= j < idx.len() - 1 ==> #[trigger] stepped(g, dist, idx[j], idx[j + 1]),
    ensures
        is_walk(g, idx, es),
        walk_weight(g, idx, es) == dist[idx.last()] - dist[idx[0]],
    decreases idx.len(),
{
    if idx.len() == 1 {
        let es = Seq::<int>::empty();
        assert(is_walk(g, idx, es));
        es
    } else {
        let front = idx.drop_last();
        assert forall|j: int| 0 <= j < front.len() - 1 implies #[trigger] stepped(
            g,
            dist,
            front[j],
            front[j + 1],
        ) by {
            assert(stepped(g, dist, idx[j], idx[j + 1]));
        }
        let fs = lemma_chain_walk(g, dist, front);
        let u = idx[idx.len() - 2];
        let v = idx[idx.len() - 1];
        assert(stepped(g, dist, idx[idx.len() - 2], idx[(idx.len() - 2) + 1]));
        let k = choose|k: int|
            0 <= k < g[u].edges.len() && (#[trigger] g[u].edges[k]).to.label == g[v].label
                && dist[v] == dist[u] + g[u].edges[k].weight;
        let es = fs.push(k);
        assert(es.drop_last() =~= fs);
        assert forall|j: int| 0 <= j < es.len() implies 0 <= #[trigger] es[j] < g[idx[j]].edges.len()
            && g[idx[j]].edges[es[j]].to.label == g[idx[j + 1]].label by {
            if j < fs.len() {
                assert(es[j] == fs[j]);
                assert(front[j] == idx[j] && front[j + 1] == idx[j + 1]);
            }
        }
        assert(is_walk(g, idx, es));
        assert(front.last() == u);
        assert(front[0] == idx[0]);
        es
    }
}

/// Whether edge `k` of node `v` can no longer shorten the way to its far end.
spec fn relaxed(g: Seq<NodeModel>, dist: Seq<i128>, visited: Seq<bool>, v: int, k: int) -> bool {
    let t = index_of(g, g[v].edges[k].to.label);
    0 <= t < visited.len() && t < dist.len() ==> visited[t] || dist[t] <= dist[v] + g[v].edges[k].weight
}

/// Whether every edge of every visited node but `skip` is relaxed.
spec fn all_relaxed(g: Seq<NodeModel>, dist: Seq<i128>, visited: Seq<bool>, skip: int) -> bool {
    forall|v: int, k: int|
        0 <= v < g.len() && v != skip && visited[v] && 0 <= k < g[v].edges.len()
            ==> #[trigger] relaxed(g, dist, visited, v, k)
}

/// Whether the first `upto` edges of node `v` are relaxed.
spec fn row_relaxed(
    g: Seq<NodeModel>,
    dist: Seq<i128>,
    visited: Seq<bool>,
    v: int,
    upto: int,
) -> bool {
    forall|k: int| 0 <= k < upto ==> #[trigger] relaxed(g, dist, visited, v, k)
}

/// The search begins in order: the start alone is pending, at distance 0.
proof fn lemma_search_start(
    g: Seq<NodeModel>,
    from: usize,
    dist: Seq<i128>,
    prev: Seq<Option<usize>>,
    visited: Seq<bool>,
    rank: Seq<int>,
    entries: Map<(usize, i128), i128>,
)
    requires
        0 <= from < g.len(),
        g.len() <= usize::MAX,
        dist.len() == g.len(),
        prev.len() == g.len(),
        visited.len() == g.len(),
        rank.len() == g.len(),
        dist[from as int] == 0,
        forall|v: int| 0 <= v < g.len() ==> !(#[trigger] visited[v]),
        forall|v: int| 0 <= v < g.len() ==> (#[trigger] prev[v]) is None,
        forall|v: int| 0 <= v < g.len() ==> #[trigger] rank[v] == g.len(),
        forall|v: int| 0 <= v < g.len() && v != from ==> #[trigger] dist[v] == i128::MAX,
        entries =~= map![(from, 0i128) => 0i128],
    ensures
        search_ok(g, from, dist, prev, visited, rank, entries),
        all_relaxed(g, dist, visited, -1),
{
    reveal(search_ok);
    lemma_count_true_none(visited);
    let lim = weight_limit();
    assert(0 * lim == 0) by (nonlinear_arith);
    assert(within(dist[from as int] as int, 0, lim));
    assert(entries.dom() =~= Set::<(usize, i128)>::empty().insert((from, 0i128)));
    assert(entries.dom().finite());
}

/// What the order of the search says of lengths and of the queue.
proof fn lemma_search_lengths(
    g: Seq<NodeModel>,
    from: usize,
    dist: Seq<i128>,
    prev: Seq<Option<usize>>,
    visited: Seq<bool>,
    rank: Seq<int>,
    entries: Map<(usize, i128), i128>,
)
    requires
        search_ok(g, from, dist, prev, visited, rank, entries),
    ensures
        dist.len() == g.len(),
        prev.len() == g.len(),
        visited.len() == g.len(),
        rank.len() == g.len(),
        g.len() <= usize::MAX,
        count_true(visited) <= g.len(),
        entries.dom().finite(),
        forall|e: (usize, i128)| #[trigger] entries.dom().contains(e) ==> e.0 < g.len(),
{
    reveal(search_ok);
}

/// Taking an entry from the queue and visiting its node keeps the search
/// in order.
proof fn lemma_search_pop(
    g: Seq<NodeModel>,
    from: usize,
    dist: Seq<i128>,
    prev: Seq<Option<usize>>,
    visited: Seq<bool>,
    rank: Seq<int>,
    entries: Map<(usize, i128), i128>,
    entry: (usize, i128),
)
    requires
        search_ok(g, from, dist, prev, visited, rank, entries),
        entries.dom().contains(entry),
    ensures
        entry.0 < g.len(),
        visited.update(entry.0 as int, true)[from as int],
        entries.remove(entry).dom().len() < entries.dom().len(),
        visited[entry.0 as int] ==> search_ok(
            g,
            from,
            dist,
            prev,
            visited,
            rank,
            entries.remove(entry),
        ),
        !visited[entry.0 as int] ==> count_true(visited.update(entry.0 as int, true))
            == count_true(visited) + 1 && search_ok(
            g,
            from,
            dist,
            prev,
            visited.update(entry.0 as int, true),
            rank.update(entry.0 as int, count_true(visited) as int),
            entries.remove(entry),
        ),
{
    reveal(search_ok);
    let n = g.len() as int;
    let c = entry.0 as int;
    let cnt = count_true(visited) as int;
    let lim = weight_limit();
    let e1 = entries.remove(entry);
    lemma_limit(n);
    assert(e1.dom() =~= entries.dom().remove(entry));
    if !visited[from as int] {
        assert(entries.dom().contains((from, 0i128)));
        assert(entry == (from, 0i128));
    }
    if !visited[c] {
        let v1 = visited.update(c, true);
        let r1 = rank.update(c, cnt);
        lemma_count_true_set(visited, c);
        lemma_count_true_bound(v1);
        assert forall|v: int| 0 <= v < n && #[trigger] v1[v] implies 0 <= r1[v] < cnt + 1
            && touched(from, prev, v) && within(dist[v] as int, cnt, lim) by {
            if v == c {
            } else {
                assert(visited[v]);
                lemma_within_grows(dist[v] as int, cnt - 1, cnt, lim);
            }
        }
        assert forall|v: int| 0 <= v < n && !(#[trigger] v1[v]) implies r1[v] == n && (touched(
            from,
            prev,
            v,
        ) ==> within(dist[v] as int, cnt + 1, lim)) by {
            assert(!visited[v]);
            if touched(from, prev, v) {
                lemma_within_grows(dist[v] as int, cnt, cnt + 1, lim);
            }
        }
        assert forall|v: int| 0 <= v < n && (#[trigger] prev[v]) is Some implies {
            let u = prev[v]->0 as int;
            u < n && v1[u] && r1[u] < r1[v] && stepped(g, dist, u, v)
        } by {
            let u = prev[v]->0 as int;
            assert(visited[u]);
        }
        assert forall|e: (usize, i128)| #[trigger] e1.dom().contains(e) implies e.0 < n
            && touched(from, prev, e.0 as int) && e1[e] == e.1 && e.1 >= dist[e.0 as int] by {
            assert(entries.dom().contains(e));
        }
        assert forall|v: int|
            0 <= v < n && !(#[trigger] v1[v]) && touched(from, prev, v) implies e1.dom().contains(
            (v as usize, dist[v]),
        ) by {
            assert(!visited[v]);
            assert(entries.dom().contains((v as usize, dist[v])));
        }
        assert(search_ok(g, from, dist, prev, v1, r1, e1));
    } else {
        assert(visited[from as int]);
        assert forall|e: (usize, i128)| #[trigger] e1.dom().contains(e) implies e.0 < n
            && touched(from, prev, e.0 as int) && e1[e] == e.1 && e.1 >= dist[e.0 as int] by {
            assert(entries.dom().contains(e));
        }
        assert forall|v: int|
            0 <= v < n && !(#[trigger] visited[v]) && touched(
                from,
                prev,
                v,
            ) implies e1.dom().contains((v as usize, dist[v])) by {
            assert(entries.dom().contains((v as usize, dist[v])));
        }
        assert(search_ok(g, from, dist, prev, visited, rank, e1));
    }
}

/// The distance of a visited node and one more weight stay within `i128`.
proof fn lemma_search_sum(
    g: Seq<NodeModel>,
    from: usize,
    dist: Seq<i128>,
    prev: Seq<Option<usize>>,
    visited: Seq<bool>,
    rank: Seq<int>,
    entries: Map<(usize, i128), i128>,
    c: usize,
    w: i32,
)
    requires
        search_ok(g, from, dist, prev, visited, rank, entries),
        0 <= c < g.len(),
        visited[c as int],
        -weight_limit() <= w <= weight_limit(),
    ensures
        -(i128::MAX) < dist[c as int] + w < i128::MAX,
{
    reveal(search_ok);
    lemma_within_step(dist[c as int] as int, w as int, count_true(visited) - 1, g.len() as int);
}

/// Lowering the distance of a node that is not visited, along an edge from
/// a visited node, and queueing it keeps the search in order.
proof fn lemma_search_relax(
    g: Seq<NodeModel>,
    from: usize,
    dist: Seq<i128>,
    prev: Seq<Option<usize>>,
    visited: Seq<bool>,
    rank: Seq<int>,
    entries: Map<(usize, i128), i128>,
    cu: usize,
    k: int,
    tu: usize,
    nd: i128,
)
    requires
        search_ok(g, from, dist, prev, visited, rank, entries),
        0 <= cu < g.len(),
        0 <= tu < g.len(),
        0 <= k < g[cu as int].edges.len(),
        visited[cu as int],
        visited[from as int],
        !visited[tu as int],
        g[cu as int].edges[k].to.label == g[tu as int].label,
        -weight_limit() <= g[cu as int].edges[k].weight <= weight_limit(),
        nd == dist[cu as int] + g[cu as int].edges[k].weight,
        nd < dist[tu as int],
    ensures
        search_ok(
            g,
            from,
            dist.update(tu as int, nd),
            prev.update(tu as int, Some(cu)),
            visited,
            rank,
            entries.insert((tu, nd), nd),
        ),
{
    reveal(search_ok);
    let c = cu as int;
    let t = tu as int;
    let n = g.len() as int;
    let cnt = count_true(visited) as int;
    let lim = weight_limit();
    let d1 = dist.update(t, nd);
    let p1 = prev.update(t, Some(cu));
    let e1 = entries.insert((tu, nd), nd);
    lemma_within_step(dist[c] as int, g[c].edges[k].weight as int, cnt - 1, n);
    assert(e1.dom() =~= entries.dom().insert((tu, nd)));
    assert(stepped(g, d1, c, t)) by {
        assert(g[c].edges[k].to.label == g[t].label);
    }
    assert forall|v: int| 0 <= v < n && #[trigger] visited[v] implies 0 <= rank[v] < cnt
        && touched(from, p1, v) && within(d1[v] as int, cnt - 1, lim) by {
        assert(touched(from, prev, v));
    }
    assert forall|v: int| 0 <= v < n && !(#[trigger] visited[v]) implies rank[v] == n && (
    touched(from, p1, v) ==> within(d1[v] as int, cnt, lim)) && (!touched(from, p1, v) ==> d1[v]
        == i128::MAX) by {
        if v != t {
            assert(touched(from, p1, v) == touched(from, prev, v));
        }
    }
    assert forall|v: int| 0 <= v < n && (#[trigger] p1[v]) is Some implies {
        let u = p1[v]->0 as int;
        u < n && visited[u] && rank[u] < rank[v] && stepped(g, d1, u, v)
    } by {
        if v != t {
            assert(prev[v] is Some);
            let u = prev[v]->0 as int;
            assert(stepped(g, dist, u, v));
            let x = choose|x: int|
                0 <= x < g[u].edges.len() && (#[trigger] g[u].edges[x]).to.label == g[v].label
                    && dist[v] == dist[u] + g[u].edges[x].weight;
            assert(g[u].edges[x].to.label == g[v].label);
        }
    }
    assert forall|v: int|
        0 <= v < n && !(#[trigger] visited[v]) && touched(from, p1, v) implies e1.dom().contains(
        (v as usize, d1[v]),
    ) by {
        if v != t {
            assert(touched(from, prev, v));
            assert(entries.dom().contains((v as usize, dist[v])));
        }
    }
    assert forall|e: (usize, i128)| #[trigger] e1.dom().contains(e) implies e.0 < n && touched(
        from,
        p1,
        e.0 as int,
    ) && e1[e] == e.1 && e.1 >= d1[e.0 as int] by {
        if e != (tu, nd) {
            assert(entries.dom().contains(e));
            assert(touched(from, prev, e.0 as int));
        }
    }
}

/// What the finished search says of a chain of predecessors.
proof fn lemma_search_chain(
    g: Seq<NodeModel>,
    from: usize,
    dist: Seq<i128>,
    prev: Seq<Option<usize>>,
    visited: Seq<bool>,
    rank: Seq<int>,
    entries: Map<(usize, i128), i128>,
)
    requires
        search_ok(g, from, dist, prev, visited, rank, entries),
        entries.dom() =~= Set::<(usize, i128)>::empty(),
    ensures
        prev[from as int] is None,
        dist[from as int] == 0,
        rank.len() == g.len(),
        forall|v: int| 0 <= v < g.len() && (#[trigger] prev[v]) is Some ==> visited[v],
        forall|v: int|
            0 <= v < g.len() && (#[trigger] prev[v]) is Some ==> {
                let u = prev[v]->0 as int;
                &&& 0 <= u < g.len()
                &&& 0 <= rank[u] < rank[v]
                &&& linked(g, g[u].label, g[v].label)
                &&& stepped(g, dist, u, v)
                &&& (u == from || prev[u] is Some)
            },
{
    reveal(search_ok);
    assert forall|v: int| 0 <= v < g.len() && (#[trigger] prev[v]) is Some implies visited[v] by {
        if !visited[v] {
            assert(touched(from, prev, v));
            assert(entries.dom().contains((v as usize, dist[v])));
        }
    }
    assert forall|v: int| 0 <= v < g.len() && (#[trigger] prev[v]) is Some implies {
        let u = prev[v]->0 as int;
        &&& 0 <= u < g.len()
        &&& 0 <= rank[u] < rank[v]
        &&& linked(g, g[u].label, g[v].label)
        &&& stepped(g, dist, u, v)
        &&& (u == from || prev[u] is Some)
    } by {
        let u = prev[v]->0 as int;
        assert(visited[u]);
        assert(touched(from, prev, u));
        assert(stepped(g, dist, u, v));
        let x = choose|x: int|
            0 <= x < g[u].edges.len() && (#[trigger] g[u].edges[x]).to.label == g[v].label
                && dist[v] == dist[u] + g[u].edges[x].weight;
        assert(g[u].edges[x].to.label == g[v].label);
    }
}

/// Visiting a node keeps the edges of the other visited nodes relaxed.
proof fn lemma_relaxed_visit(g: Seq<NodeModel>, dist: Seq<i128>, visited: Seq<bool>, c: int)
    requires
        all_relaxed(g, dist, visited, -1),
        0 <= c < visited.len(),
        visited.len() == g.len(),
    ensures
        all_relaxed(g, dist, visited.update(c, true), c),
        visited[c] ==> row_relaxed(
            g,
            dist,
            visited.update(c, true),
            c,
            g[c].edges.len() as int,
        ),
{
    let v1 = visited.update(c, true);
    assert forall|v: int, k: int|
        0 <= v < g.len() && v != c && v1[v] && 0 <= k < g[v].edges.len() implies #[trigger] relaxed(
        g,
        dist,
        v1,
        v,
        k,
    ) by {
        assert(relaxed(g, dist, visited, v, k));
    }
    if visited[c] {
        assert(v1 =~= visited);
        assert forall|k: int| 0 <= k < g[c].edges.len() implies #[trigger] relaxed(
            g,
            dist,
            v1,
            c,
            k,
        ) by {
            assert(relaxed(g, dist, visited, c, k));
        }
    }
}

/// Lowering the distance of a node that is not visited keeps relaxed edges
/// relaxed.
proof fn lemma_relaxed_lower(
    g: Seq<NodeModel>,
    dist: Seq<i128>,
    visited: Seq<bool>,
    c: int,
    upto: int,
    t: int,
    nd: i128,
)
    requires
        all_relaxed(g, dist, visited, c),
        row_relaxed(g, dist, visited, c, upto),
        0 <= c < g.len(),
        dist.len() == g.len(),
        visited.len() == g.len(),
        visited[c],
        0 <= t < dist.len(),
        !visited[t],
        nd <= dist[t],
    ensures
        all_relaxed(g, dist.update(t, nd), visited, c),
        row_relaxed(g, dist.update(t, nd), visited, c, upto),
{
    let d1 = dist.update(t, nd);
    assert forall|v: int, k: int|
        0 <= v < g.len() && v != c && visited[v] && 0 <= k < g[v].edges.len() implies #[trigger] relaxed(
        g,
        d1,
        visited,
        v,
        k,
    ) by {
        assert(relaxed(g, dist, visited, v, k));
    }
    assert forall|k: int| 0 <= k < upto implies #[trigger] relaxed(g, d1, visited, c, k) by {
        assert(relaxed(g, dist, visited, c, k));
    }
}

/// Once every edge of the node under visit is relaxed, every edge of every
/// visited node is.
proof fn lemma_relaxed_done(g: Seq<NodeModel>, dist: Seq<i128>, visited: Seq<bool>, c: int)
    requires
        all_relaxed(g, dist, visited, c),
        row_relaxed(g, dist, visited, c, g[c].edges.len() as int),
    ensures
        all_relaxed(g, dist, visited, -1),
{
    assert forall|v: int, k: int|
        0 <= v < g.len() && v != -1 && visited[v] && 0 <= k < g[v].edges.len() implies #[trigger] relaxed(
        g,
        dist,
        visited,
        v,
        k,
    ) by {
        if v != c {
            assert(relaxed(g, dist, visited, v, k));
        } else {
            assert(relaxed(g, dist, visited, c, k));
        }
    }
}

/// Along a chain of predecessors the ranks rise.
proof fn lemma_rank_rises(prev: Seq<Option<usize>>, rank: Seq<int>, idx: Seq<int>, a: int, b: int)
    requires
        0 <= a < b < idx.len(),
        prev.len() == rank.len(),
        forall|k: int| 0 <= k < idx.len() ==> 0 <= #[trigger] idx[k] < prev.len(),
        forall|k: int| 0 <= k < idx.len() - 1 ==> (#[trigger] prev[idx[k + 1]]) is Some && prev[idx[k + 1]]->0 == idx[k],
        forall|v: int|
            0 <= v < prev.len() && (#[trigger] prev[v]) is Some ==> 0 <= prev[v]->0 < prev.len()
                && rank[prev[v]->0 as int] < rank[v],
    ensures
        rank[idx[a]] < rank[idx[b]],
    decreases b - a,
{
    let k = b - 1;
    let v = idx[k + 1];
    assert(0 <= idx[b] < prev.len());
    assert(prev[idx[k + 1]] is Some);
    assert(prev[v]->0 == idx[k]);
    assert(rank[idx[k]] < rank[v]);
    if a < b - 1 {
        lemma_rank_rises(prev, rank, idx, a, b - 1);
    }
}

/// What the finished search says of the route read back from `to`.
proof fn lemma_route(
    g: Seq<NodeModel>,
    from: usize,
    to: usize,
    dist: Seq<i128>,
    prev: Seq<Option<usize>>,
    visited: Seq<bool>,
    rank: Seq<int>,
    entries: Map<(usize, i128), i128>,
    idx: Seq<int>,
    path: Seq<Seq<char>>,
)
    requires
        distinct(g),
        from < g.len(),
        to < g.len(),
        dist.len() == g.len(),
        prev.len() == g.len(),
        visited.len() == g.len(),
        search_ok(g, from, dist, prev, visited, rank, entries),
        entries == no_entries(),
        all_relaxed(g, dist, visited, -1),
        nonnegative(g) ==> floors(g, from, dist, visited),
        path.len() == idx.len(),
        idx.len() >= 1,
        idx.last() == to,
        forall|k: int|
            0 <= k < idx.len() ==> 0 <= #[trigger] idx[k] < g.len() && path[k] == g[idx[k]].label,
        prev[idx[0]] is None,
        forall|k: int|
            0 <= k < idx.len() - 1 ==> (#[trigger] prev[idx[k + 1]]) is Some && prev[idx[k
                + 1]]->0 == idx[k],
    ensures
        path.last() == g[to as int].label,
        path.len() > 1 ==> path[0] == g[from as int].label,
        from == to ==> path.len() == 1,
        path.no_duplicates(),
        forall|k: int| 0 <= k < path.len() - 1 ==> linked(g, #[trigger] path[k], path[k + 1]),
        (path.len() == 1 && from != to) == !joined_by_walk(g, from as int, to as int),
        nonnegative(g) && joined_by_walk(g, from as int, to as int) ==> exists|
            ns: Seq<int>,
            es: Seq<int>,
        |
            #[trigger] lightest(g, ns, es) && ns[0] == from && ns.last() == to && walk_labels(
                g,
                ns,
            ) == path,
{
    lemma_fitting(g);
    lemma_search_chain(g, from, dist, prev, visited, rank, entries);
    assert forall|a: int, b: int| 0 <= a < b < idx.len() implies path[a] != path[b] by {
        lemma_rank_rises(prev, rank, idx, a, b);
        if idx[a] < idx[b] {
            assert(g[idx[a]].label != g[idx[b]].label);
        } else {
            assert(g[idx[b]].label != g[idx[a]].label);
        }
    }
    assert forall|k: int| 0 <= k < path.len() - 1 implies linked(
        g,
        #[trigger] path[k],
        path[k + 1],
    ) by {
        assert(prev[idx[k + 1]] is Some);
    }
    if path.len() > 1 {
        assert(prev[idx[0int + 1]] is Some);
        assert(prev[idx[(idx.len() - 2) + 1]] is Some);
    }
    let a = from as int;
    let b = to as int;
    if idx[0] == a {
        assert forall|j: int| 0 <= j < idx.len() - 1 implies #[trigger] stepped(
            g,
            dist,
            idx[j],
            idx[j + 1],
        ) by {
            assert(prev[idx[j + 1]] is Some);
        }
        let es = lemma_chain_walk(g, dist, idx);
        assert(walk_labels(g, idx) =~= path);
        assert(joined_by_walk(g, a, b));
        if nonnegative(g) {
            assert(visited[b]) by {
                if b != a {
                    assert(prev[idx[(idx.len() - 2) + 1]] is Some);
                } else {
                    lemma_walk_visited(
                        g,
                        from,
                        dist,
                        prev,
                        visited,
                        rank,
                        entries,
                        seq![a],
                        Seq::<int>::empty(),
                        0,
                    );
                }
            }
            assert(floor(g, from, dist, b)) by {
                reveal(floors);
            }
            assert(lightest(g, idx, es));
        }
    } else {
        assert(path.len() == 1 && b != a);
        if joined_by_walk(g, a, b) {
            let (ms, fs) = choose|ms: Seq<int>, fs: Seq<int>| #[trigger]
                is_walk(g, ms, fs) && ms[0] == a && ms.last() == b;
            lemma_walk_visited(
                g,
                from,
                dist,
                prev,
                visited,
                rank,
                entries,
                ms,
                fs,
                fs.len() as int,
            );
        }
    }
}

impl WeightedGraphs {
    /// Follows the predecessors back from `to_index` and returns the labels
    /// met, first node first, with the positions of those nodes.
    fn build_path(
        &self,
        to_index: usize,
        previous: &Vec<Option<usize>>,
        Ghost(rank): Ghost<Seq<int>>,
    ) -> (r: (Path, Ghost<Seq<int>>))
        requires
            to_index < self@.len(),
            previous@.len() == self@.len(),
            rank.len() == self@.len(),
            forall|v: int|
                0 <= v < self@.len() && (#[trigger] previous@[v]) is Some ==> previous@[v]->0
                    < self@.len() && 0 <= rank[previous@[v]->0 as int] < rank[v],
        ensures
            r.0@.len() == r.1@.len(),
            r.1@.len() >= 1,
            r.1@.last() == to_index,
            forall|k: int|
                0 <= k < r.1@.len() ==> 0 <= #[trigger] r.1@[k] < self@.len() && r.0@[k]
                    == self@[r.1@[k]].label,
            previous@[r.1@[0]] is None,
            forall|k: int|
                0 <= k < r.1@.len() - 1 ==> (#[trigger] previous@[r.1@[k + 1]]) is Some
                    && previous@[r.1@[k + 1]]->0 == r.1@[k],
    {
        let mut path = Path::new();
        let mut cur = to_index;
        let ghost mut back: Seq<int> = Seq::empty();
        let mut next = previous[cur];
        while next.is_some()
            invariant
                cur < self@.len(),
                previous@.len() == self@.len(),
                rank.len() == self@.len(),
                forall|v: int|
                    0 <= v < self@.len() && (#[trigger] previous@[v]) is Some ==> previous@[v]->0
                        < self@.len() && 0 <= rank[previous@[v]->0 as int] < rank[v],
                next == previous@[cur as int],
                back.len() == path@.len(),
                forall|k: int|
                    0 <= k < back.len() ==> 0 <= #[trigger] back[k] < self@.len() && path@[k]
                        == self@[back[k]].label,
                back.len() == 0 ==> cur == to_index,
                back.len() > 0 ==> back[0] == to_index && previous@[back.last()] == Some(cur),
                forall|k: int|
                    0 <= k < back.len() - 1 ==> (#[trigger] previous@[back[k]]) is Some
                        && previous@[back[k]]->0 == back[k + 1],
            decreases rank[cur as int],
        {
            let p = next.unwrap();
            let label = self.nodes[cur].label().clone();
            path.add_node(label);
            proof {
                back = back.push(cur as int);
            }
            cur = p;
            next = previous[cur];
        }
        let label = self.nodes[cur].label().clone();
        path.add_node(label);
        proof {
            back = back.push(cur as int);
        }
        let ghost before = path@;
        reverse_strings(&mut path.nodes);
        proof {
            assert(path@ =~= before.reverse());
            let idx = back.reverse();
            assert forall|k: int| 0 <= k < idx.len() - 1 implies (#[trigger] previous@[idx[k
                + 1]]) is Some && previous@[idx[k + 1]]->0 == idx[k] by {
                let j = back.len() - 2 - k;
                assert(idx[k + 1] == back[j]);
                assert(idx[k] == back[j + 1]);
                assert(previous@[back[j]] is Some);
            }
        }
        (path, Ghost(back.reverse()))
    }

    /// Relaxes the edges of node `current`, which the search has just taken
    /// from its queue.
    fn relax_edges(
        &self,
        from_index: usize,
        current: usize,
        distance: &mut Vec<i128>,
        previous: &mut Vec<Option<usize>>,
        visited: &Vec<bool>,
        queue: &mut crate::min_queue::EntryQueue,
        Ghost(rank): Ghost<Seq<int>>,
        Ghost(fresh): Ghost<bool>,
    )
        requires
            self.wf(),
            fitting(self@),
            from_index < self@.len(),
            current < self@.len(),
            visited@[current as int],
            visited@[from_index as int],
            search_ok(
                self@,
                from_index,
                old(distance)@,
                old(previous)@,
                visited@,
                rank,
                queue_entries(*old(queue)),
            ),
            all_relaxed(self@, old(distance)@, visited@, current as int),
            !fresh ==> row_relaxed(
                self@,
                old(distance)@,
                visited@,
                current as int,
                self@[current as int].edges.len() as int,
            ),
            nonnegative(self@) ==> floors(self@, from_index, old(distance)@, visited@),
        ensures
            nonnegative(self@) ==> floors(self@, from_index, final(distance)@, visited@),
            search_ok(
                self@,
                from_index,
                final(distance)@,
                final(previous)@,
                visited@,
                rank,
                queue_entries(*final(queue)),
            ),
            all_relaxed(self@, final(distance)@, visited@, -1),
            !fresh ==> queue_entries(*final(queue)) == queue_entries(*old(queue)),
    {
        let ghost g = self@;
        let n = self.nodes.len();
        let mut k: usize = 0;
        proof {
            lemma_search_lengths(
                g,
                from_index,
                distance@,
                previous@,
                visited@,
                rank,
                queue_entries(*queue),
            );
            lemma_edges_model(self.nodes@[current as int].edges@);
        }
        while k < self.nodes[current].edges.len()
            invariant
                n == self.nodes.len(),
                g == self@,
                self.wf(),
                fitting(self@),
                from_index < n,
                current < n,
                k <= self.nodes[current as int].edges.len(),
                self.nodes[current as int].edges.len() == g[current as int].edges.len(),
                visited@[current as int],
                visited@[from_index as int],
                distance@.len() == n,
                previous@.len() == n,
                visited@.len() == n,
                search_ok(
                    g,
                    from_index,
                    distance@,
                    previous@,
                    visited@,
                    rank,
                    queue_entries(*queue),
                ),
                all_relaxed(g, distance@, visited@, current as int),
                nonnegative(g) ==> floors(g, from_index, distance@, visited@),
                row_relaxed(g, distance@, visited@, current as int, k as int),
                !fresh ==> row_relaxed(
                    g,
                    distance@,
                    visited@,
                    current as int,
                    g[current as int].edges.len() as int,
                ),
                !fresh ==> queue_entries(*queue) == queue_entries(*old(queue)),
            decreases self.nodes[current as int].edges.len() - k,
        {
            let edge = &self.nodes[current].edges[k];
            proof {
                lemma_edges_model(self.nodes@[current as int].edges@);
                assert(g[current as int].edges[k as int] == edge@);
                assert(node_sound(g, g[current as int]));
                assert(has_label(g, g[current as int].edges[k as int].to.label));
            }
            let found = self.position(edge.to().label());
            let neighbor = found.unwrap();
            let weight = edge.weight();
            proof {
                lemma_index_of(g, neighbor as int);
            }
            if !visited[neighbor] {
                proof {
                    lemma_search_sum(
                        g,
                        from_index,
                        distance@,
                        previous@,
                        visited@,
                        rank,
                        queue_entries(*queue),
                        current,
                        weight,
                    );
                }
                let new_distance = distance[current] + weight as i128;
                if new_distance < distance[neighbor] {
                    proof {
                        if !fresh {
                            assert(relaxed(g, distance@, visited@, current as int, k as int));
                        }
                        lemma_search_relax(
                            g,
                            from_index,
                            distance@,
                            previous@,
                            visited@,
                            rank,
                            queue_entries(*queue),
                            current,
                            k as int,
                            neighbor,
                            new_distance,
                        );
                        lemma_relaxed_lower(
                            g,
                            distance@,
                            visited@,
                            current as int,
                            k as int,
                            neighbor as int,
                            new_distance,
                        );
                        if nonnegative(g) {
                            lemma_floors_lower(
                                g,
                                from_index,
                                distance@,
                                visited@,
                                neighbor as int,
                                new_distance,
                            );
                        }
                    }
                    distance[neighbor] = new_distance;
                    previous[neighbor] = Some(current);
                    queue_push(queue, (neighbor, new_distance), new_distance);
                }
            }
            proof {
                assert(relaxed(g, distance@, visited@, current as int, k as int));
            }
            k += 1;
        }
        proof {
            lemma_relaxed_done(g, distance@, visited@, current as int);
        }
    }

    /// Searches outwards from `from`, always continuing from a pending node of
    /// the smallest distance found so far, and returns the route by which the
    /// search reached `to`: the labels from `from` to `to`, each joined to the
    /// next by an edge. Where no weight is negative, the route is a lightest
    /// walk from `from` to `to`. The route is `to` alone where no walk leads
    /// from `from` to `to`, and empty where either label is not a node.
    pub fn get_shortest_path(&self, from: String, to: String) -> (path: Path)
        requires
            self.wf(),
        ensures
            !has_label(self@, from@) || !has_label(self@, to@) ==> path@.len() == 0,
            has_label(self@, from@) && has_label(self@, to@) ==> {
                &&& path@.len() >= 1
                &&& path@.last() == to@
                &&& path@.len() > 1 ==> path@[0] == from@
                &&& from@ == to@ ==> path@.len() == 1
                &&& path@.no_duplicates()
                &&& forall|k: int|
                    0 <= k < path@.len() - 1 ==> linked(self@, #[trigger] path@[k], path@[k + 1])
                &&& (path@.len() == 1 && from@ != to@) == !joined_by_walk(
                    self@,
                    index_of(self@, from@),
                    index_of(self@, to@),
                )
                &&& nonnegative(self@) && joined_by_walk(
                    self@,
                    index_of(self@, from@),
                    index_of(self@, to@),
                ) ==> exists|ns: Seq<int>, es: Seq<int>|
                    #[trigger] lightest(self@, ns, es) && ns[0] == index_of(self@, from@)
                        && ns.last() == index_of(self@, to@) && walk_labels(self@, ns) == path@
            },
    {
        let from_index = match self.position(&from) {
            Some(i) => i,
            None => {
                return Path::new();
            },
        };
        let to_index = match self.position(&to) {
            Some(i) => i,
            None => {
                return Path::new();
            },
        };
        let n = self.nodes.len();
        let ghost g = self@;
        proof {
            lemma_fitting(g);
        }
        let mut distance: Vec<i128> = Vec::new();
        let mut previous: Vec<Option<usize>> = Vec::new();
        let mut visited: Vec<bool> = Vec::new();
        let mut i: usize = 0;
        while i < n
            invariant
                i <= n,
                distance@.len() == i,
                previous@.len() == i,
                visited@.len() == i,
                forall|v: int| 0 <= v < i ==> !(#[trigger] visited@[v]),
                forall|v: int| 0 <= v < i ==> (#[trigger] previous@[v]) is None,
                forall|v: int| 0 <= v < i ==> #[trigger] distance@[v] == i128::MAX,
            decreases n - i,
        {
            distance.push(i128::MAX);
            previous.push(None);
            visited.push(false);
            i += 1;
        }
        distance[from_index] = 0;
        let mut queue = queue_new();
        queue_push(&mut queue, (from_index, 0), 0);
        let ghost mut rank: Seq<int> = Seq::new(n as nat, |v: int| n as int);
        let mut open = true;
        proof {
            lemma_search_start(
                g,
                from_index,
                distance@,
                previous@,
                visited@,
                rank,
                queue_entries(queue),
            );
            lemma_search_lengths(
                g,
                from_index,
                distance@,
                previous@,
                visited@,
                rank,
                queue_entries(queue),
            );
            lemma_floors_start(g, from_index, distance@, visited@);
        }
        while open
            invariant
                n == self.nodes.len(),
                g == self@,
                self.wf(),
                fitting(self@),
                from_index < n,
                distance@.len() == n,
                previous@.len() == n,
                visited@.len() == n,
                count_true(visited@) <= n,
                queue_entries(queue).dom().finite(),
                search_ok(
                    g,
                    from_index,
                    distance@,
                    previous@,
                    visited@,
                    rank,
                    queue_entries(queue),
                ),
                all_relaxed(g, distance@, visited@, -1),
                !open ==> queue_entries(queue) == no_entries(),
                nonnegative(g) ==> floors(g, from_index, distance@, visited@),
            decreases
                    n - count_true(visited@),
                    queue_entries(queue).dom().len(),
                    if open { 1int } else { 0int },
        {
            let ghost entries0 = queue_entries(queue);
            let popped = queue_pop(&mut queue);
            match popped {
                None => {
                    open = false;
                },
                Some((entry, _)) => {
                    let current = entry.0;
                    let ghost fresh = !visited@[current as int];
                    proof {
                        if nonnegative(g) {
                            lemma_settle(
                                g,
                                from_index,
                                distance@,
                                previous@,
                                visited@,
                                rank,
                                entries0,
                                entry,
                            );
                            lemma_floors_visit(
                                g,
                                from_index,
                                distance@,
                                visited@,
                                current as int,
                            );
                        }
                        lemma_search_pop(
                            g,
                            from_index,
                            distance@,
                            previous@,
                            visited@,
                            rank,
                            entries0,
                            entry,
                        );
                        lemma_relaxed_visit(g, distance@, visited@, current as int);
                        if fresh {
                            rank = rank.update(current as int, count_true(visited@) as int);
                        } else {
                            assert(visited@.update(current as int, true) =~= visited@);
                        }
                    }
                    visited[current] = true;
                    self.relax_edges(
                        from_index,
                        current,
                        &mut distance,
                        &mut previous,
                        &visited,
                        &mut queue,
                        Ghost(rank),
                        Ghost(fresh),
                    );
                    proof {
                        lemma_search_lengths(
                            g,
                            from_index,
                            distance@,
                            previous@,
                            visited@,
                            rank,
                            queue_entries(queue),
                        );
                    }
                },
            }
        }
        let (path, Ghost(idx)) = {
            proof {
                lemma_search_chain(
                    g,
                    from_index,
                    distance@,
                    previous@,
                    visited@,
                    rank,
                    queue_entries(queue),
                );
            }
            self.build_path(to_index, &previous, Ghost(rank))
        };
        proof {
            lemma_index_of(g, from_index as int);
            lemma_index_of(g, to_index as int);
            lemma_route(
                g,
                from_index,
                to_index,
                distance@,
                previous@,
                visited@,
                rank,
                queue_entries(queue),
                idx,
                path@,
            );
        }
        path
    }
}

} // verus!
