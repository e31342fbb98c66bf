//! Why a tree grown by always taking a lightest edge that leaves it weighs no
//! more than any other way of hanging the nodes below the first.

use super::cycles::leads;
use super::spanning::{drawn_from, hangs, light_cut, stands_before};
use super::{has_edge, has_label, index_of, lemma_index_of, NodeModel};
use vstd::prelude::*;

verus! {

/// Whether some edge of weight `w` leads from the node at `a` to the node at
/// `b`.
pub open spec fn edge_of_weight(g: Seq<NodeModel>, a: int, b: int, w: int) -> bool {
    exists|k: int| #[trigger] leads(g, a, k, b) && g[a].edges[k].weight == w
}

/// Whether every edge has an edge of the same weight in the other direction.
pub open spec fn mirrored(g: Seq<NodeModel>) -> bool {
    forall|a: int, k: int, b: int|
        0 <= a < g.len() && 0 <= b < g.len() && #[trigger] leads(g, a, k, b) ==> edge_of_weight(
            g,
            b,
            a,
            g[a].edges[k].weight as int,
        )
}

/// The sum of the entries of `weights` at the places from 1 up to `upto`.
pub open spec fn total(weights: Seq<int>, upto: int) -> int
    decreases upto,
{
    if upto <= 1 {
        0
    } else {
        total(weights, upto - 1) + weights[upto - 1]
    }
}

/// Whether `above` and `weights` hang every node of `g` but the first below
/// another node, by an edge of `g` of the given weight, so that `rank` rises
/// from each node to the nodes below it: the shape of a spanning tree with
/// the first node on top.
pub open spec fn hung_below(
    g: Seq<NodeModel>,
    above: Seq<int>,
    weights: Seq<int>,
    rank: Seq<int>,
) -> bool {
    &&& above.len() == g.len()
    &&& weights.len() == g.len()
    &&& rank.len() == g.len()
    &&& forall|x: int|
        1 <= x < g.len() ==> 0 <= #[trigger] above[x] < g.len() && 0 <= rank[above[x]] < rank[x]
            && edge_of_weight(g, above[x], x, weights[x])
}

/// Whether `order` lists the nodes of `g`, the first node first, `place`
/// says where each stands in it, and each node `x` but the first can hang, by
/// an edge of weight `light[x]`, below the node `up[x]` that stands before
/// it, where no edge from a node standing before it to one that does not is
/// lighter.
spec fn greedy(
    g: Seq<NodeModel>,
    order: Seq<int>,
    place: Seq<int>,
    light: Seq<int>,
    up: Seq<int>,
) -> bool {
    &&& order.len() == g.len()
    &&& up.len() == g.len()
    &&& place.len() == g.len()
    &&& light.len() == g.len()
    &&& g.len() > 0 ==> place[0] == 0
    &&& forall|x: int| 0 <= x < g.len() ==> 0 <= #[trigger] place[x] < g.len()
    &&& forall|m: int| 0 <= m < g.len() ==> 0 <= #[trigger] order[m] < g.len() && place[order[m]] == m
    &&& forall|x: int, y: int|
        0 <= x < g.len() && 0 <= y < g.len() && #[trigger] place[x] == #[trigger] place[y] ==> x == y
    &&& forall|x: int|
        1 <= x < g.len() ==> 0 <= #[trigger] up[x] < g.len() && place[up[x]] < place[x] && edge_of_weight(
            g,
            up[x],
            x,
            light[x],
        )
    &&& forall|x: int, a: int, k: int, b: int|
        #![trigger light[x], leads(g, a, k, b)]
        1 <= x < g.len() && 0 <= a < g.len() && 0 <= b < g.len() && leads(g, a, k, b) && place[a]
            < place[x] <= place[b] ==> light[x] <= g[a].edges[k].weight
}

/// Whether every node standing before place `i` hangs below a node that
/// stands before it, by an edge of the greedy weight.
spec fn agrees(place: Seq<int>, light: Seq<int>, above: Seq<int>, weights: Seq<int>, i: int) -> bool {
    forall|x: int|
        1 <= x < place.len() && place[x] < i ==> place[#[trigger] above[x]] < place[x] && weights[x]
            == light[x]
}

proof fn lemma_total_update(weights: Seq<int>, x: int, value: int, upto: int)
    requires
        1 <= x < weights.len(),
        0 <= upto <= weights.len(),
    ensures
        total(weights.update(x, value), upto) == total(weights, upto) + if x < upto {
            value - weights[x]
        } else {
            0
        },
    decreases upto,
{
    if upto > 1 {
        lemma_total_update(weights, x, value, upto - 1);
    }
}

proof fn lemma_total_same(a: Seq<int>, b: Seq<int>, upto: int)
    requires
        0 <= upto <= a.len(),
        a.len() == b.len(),
        forall|x: int| 1 <= x < a.len() ==> #[trigger] a[x] == b[x],
    ensures
        total(a, upto) == total(b, upto),
    decreases upto,
{
    if upto > 1 {
        lemma_total_same(a, b, upto - 1);
    }
}

/// The nodes from `v` upwards that do not stand before place `i`, up to the
/// first whose node above does.
proof fn lemma_climb(
    g: Seq<NodeModel>,
    place: Seq<int>,
    above: Seq<int>,
    weights: Seq<int>,
    rank: Seq<int>,
    i: int,
    v: int,
) -> (chain: Seq<int>)
    requires
        hung_below(g, above, weights, rank),
        place.len() == g.len(),
        place[0] == 0,
        1 <= i,
        0 <= v < g.len(),
        place[v] >= i,
    ensures
        chain.len() >= 1,
        chain[0] == v,
        forall|j: int|
            0 <= j < chain.len() ==> 1 <= #[trigger] chain[j] < g.len() && place[chain[j]] >= i
                && rank[chain[j]] <= rank[v],
        forall|j: int| 1 <= j < chain.len() ==> above[chain[j - 1]] == #[trigger] chain[j],
        forall|a: int, b: int|
            0 <= a < b < chain.len() ==> rank[#[trigger] chain[b]] < rank[#[trigger] chain[a]],
        place[above[chain.last()]] < i,
    decreases rank[v],
{
    let q = above[v];
    if place[q] < i {
        seq![v]
    } else {
        let rest = lemma_climb(g, place, above, weights, rank, i, q);
        let chain = seq![v] + rest;
        assert forall|j: int| 0 <= j < chain.len() implies 1 <= #[trigger] chain[j] < g.len()
            && place[chain[j]] >= i && rank[chain[j]] <= rank[v] by {
            if j > 0 {
                assert(chain[j] == rest[j - 1]);
            }
        }
        assert forall|j: int| 1 <= j < chain.len() implies above[chain[j - 1]]
            == #[trigger] chain[j] by {
            assert(chain[j] == rest[j - 1]);
            if j > 1 {
                assert(chain[j - 1] == rest[j - 2]);
                assert(above[rest[j - 1 - 1]] == rest[j - 1]);
            }
        }
        assert forall|a: int, b: int| 0 <= a < b < chain.len() implies rank[#[trigger] chain[b]]
            < rank[#[trigger] chain[a]] by {
            assert(chain[b] == rest[b - 1]);
            if a > 0 {
                assert(chain[a] == rest[a - 1]);
            }
        }
        assert(chain.last() == rest.last());
        chain
    }
}

spec fn spot(chain: Seq<int>, y: int) -> int {
    choose|j: int| 0 <= j < chain.len() && chain[j] == y
}

/// The weights after the chain was turned round: its first node hangs by
/// `first`, each other by the weight the node before it hung by.
spec fn turned_weights(weights: Seq<int>, chain: Seq<int>, first: int) -> Seq<int> {
    Seq::new(
        weights.len(),
        |y: int|
            if chain.contains(y) {
                if spot(chain, y) == 0 {
                    first
                } else {
                    weights[chain[spot(chain, y) - 1]]
                }
            } else {
                weights[y]
            },
    )
}

spec fn turned_above(above: Seq<int>, chain: Seq<int>, first: int) -> Seq<int> {
    Seq::new(
        above.len(),
        |y: int|
            if chain.contains(y) {
                if spot(chain, y) == 0 {
                    first
                } else {
                    chain[spot(chain, y) - 1]
                }
            } else {
                above[y]
            },
    )
}

spec fn turned_rank(rank: Seq<int>, place: Seq<int>, chain: Seq<int>, i: int) -> Seq<int> {
    Seq::new(
        rank.len(),
        |y: int|
            if place[y] < i {
                place[y]
            } else if chain.contains(y) {
                i + spot(chain, y)
            } else {
                i + chain.len() + rank[y]
            },
    )
}

spec fn apart(chain: Seq<int>, len: int) -> bool {
    &&& forall|j: int| 0 <= j < chain.len() ==> 1 <= #[trigger] chain[j] < len
    &&& forall|a: int, b: int|
        0 <= a < b < chain.len() ==> #[trigger] chain[a] != #[trigger] chain[b]
}

proof fn lemma_spot(chain: Seq<int>, len: int, j: int)
    requires
        apart(chain, len),
        0 <= j < chain.len(),
    ensures
        chain.contains(chain[j]),
        spot(chain, chain[j]) == j,
{
    let s = spot(chain, chain[j]);
    assert(0 <= s < chain.len() && chain[s] == chain[j]);
    if s < j {
        assert(chain[s] != chain[j]);
    } else if j < s {
        assert(chain[j] != chain[s]);
    }
}

/// Turning a chain round changes the sum by what its first node gains and
/// its last node gives up.
proof fn lemma_turned_total(weights: Seq<int>, chain: Seq<int>, first: int)
    requires
        chain.len() >= 1,
        apart(chain, weights.len() as int),
    ensures
        total(turned_weights(weights, chain, first), weights.len() as int) == total(
            weights,
            weights.len() as int,
        ) + first - weights[chain.last()],
    decreases chain.len(),
{
    let n = weights.len() as int;
    let m = chain.len() as int;
    let now = turned_weights(weights, chain, first);
    if m == 1 {
        lemma_spot(chain, n, 0);
        let want = weights.update(chain[0], first);
        assert forall|y: int| 1 <= y < n implies #[trigger] now[y] == want[y] by {
            if chain.contains(y) {
                let j = spot(chain, y);
                assert(chain[j] == y && j == 0);
            }
        }
        lemma_total_same(now, want, n);
        lemma_total_update(weights, chain[0], first, n);
    } else {
        let less = chain.drop_last();
        assert(apart(less, n)) by {
            assert forall|j: int| 0 <= j < less.len() implies 1 <= #[trigger] less[j] < n by {
                assert(less[j] == chain[j]);
            }
            assert forall|a: int, b: int| 0 <= a < b < less.len() implies #[trigger] less[a]
                != #[trigger] less[b] by {
                assert(less[a] == chain[a] && less[b] == chain[b]);
            }
        }
        lemma_turned_total(weights, less, first);
        let before = turned_weights(weights, less, first);
        let last = chain[m - 1];
        let want = before.update(last, weights[chain[m - 2]]);
        assert(!less.contains(last)) by {
            if less.contains(last) {
                let j = spot(less, last);
                assert(less[j] == chain[j]);
                assert(chain[j] != chain[m - 1]);
            }
        }
        assert forall|y: int| 1 <= y < n implies #[trigger] now[y] == want[y] by {
            if y == last {
                lemma_spot(chain, n, m - 1);
            } else if chain.contains(y) {
                let j = spot(chain, y);
                assert(chain[j] == y);
                assert(j < m - 1);
                assert(less[j] == y);
                lemma_spot(less, n, j);
                if j > 0 {
                    assert(less[j - 1] == chain[j - 1]);
                }
            } else {
                if less.contains(y) {
                    let j = spot(less, y);
                    assert(chain[j] == y);
                }
            }
        }
        lemma_total_same(now, want, n);
        lemma_total_update(before, last, weights[chain[m - 2]], n);
        assert(before[last] == weights[last]);
        assert(less.last() == chain[m - 2]);
    }
}

/// A way of hanging the nodes that agrees with the greedy one before place
/// `i` can be changed, without gaining weight, into one that agrees with it
/// before place `i + 1`.
proof fn lemma_exchange(
    g: Seq<NodeModel>,
    order: Seq<int>,
    place: Seq<int>,
    light: Seq<int>,
    up: Seq<int>,
    above: Seq<int>,
    weights: Seq<int>,
    rank: Seq<int>,
    i: int,
) -> (r: (Seq<int>, Seq<int>, Seq<int>))
    requires
        greedy(g, order, place, light, up),
        mirrored(g),
        hung_below(g, above, weights, rank),
        agrees(place, light, above, weights, i),
        1 <= i < g.len(),
    ensures
        hung_below(g, r.0, r.1, r.2),
        agrees(place, light, r.0, r.1, i + 1),
        total(r.1, g.len() as int) <= total(weights, g.len() as int),
{
    let n = g.len() as int;
    let v = order[i];
    assert(place[v] == i);
    assert(v != 0);
    let chain = lemma_climb(g, place, above, weights, rank, i, v);
    let m = chain.len() as int;
    let top = chain[m - 1];
    let p = up[v];
    let above2 = turned_above(above, chain, p);
    let weights2 = turned_weights(weights, chain, light[v]);
    let rank2 = turned_rank(rank, place, chain, i);
    assert(apart(chain, n));
    assert forall|j: int| 0 <= j < m implies chain.contains(#[trigger] chain[j]) && spot(
        chain,
        chain[j],
    ) == j by {
        lemma_spot(chain, n, j);
    }
    assert forall|y: int| 0 <= y < n && chain.contains(y) implies 0 <= spot(chain, y) < m
        && #[trigger] chain[spot(chain, y)] == y && place[y] >= i by {
        let j = spot(chain, y);
        assert(place[chain[j]] >= i);
    }
    assert forall|y: int| 0 <= y < n implies 0 <= #[trigger] rank2[y] by {
        if place[y] < i {
        } else if chain.contains(y) {
        } else {
            if y >= 1 {
                assert(0 <= rank[above[y]] < rank[y]);
            } else {
                assert(place[0] == 0);
            }
        }
    }
    assert forall|x: int| 1 <= x < n implies 0 <= #[trigger] above2[x] < n && 0 <= rank2[above2[x]]
        < rank2[x] && edge_of_weight(g, above2[x], x, weights2[x]) by {
        let q = above[x];
        assert(0 <= q < n && 0 <= rank[q] < rank[x] && edge_of_weight(g, q, x, weights[x]));
        if place[x] < i {
            assert(!chain.contains(x));
            assert(place[above[x]] < place[x]);
        } else if chain.contains(x) {
            let j = spot(chain, x);
            assert(chain[j] == x);
            if j == 0 {
                assert(x == v);
            } else {
                let c = chain[j - 1];
                assert(chain.contains(chain[j - 1]) && spot(chain, chain[j - 1]) == j - 1);
                assert(place[chain[j - 1]] >= i);
                assert(above[chain[j - 1]] == chain[j]);
                assert(1 <= c < n);
                assert(edge_of_weight(g, above[c], c, weights[c]));
                let k = choose|k: int| #[trigger] leads(g, x, k, c) && g[x].edges[k].weight == weights[c];
                assert(edge_of_weight(g, c, x, g[x].edges[k].weight as int));
            }
        } else {
            if place[q] >= i && chain.contains(q) {
                assert(spot(chain, q) < m);
            }
        }
    }
    assert forall|x: int| 1 <= x < n && place[x] < i + 1 implies place[#[trigger] above2[x]]
        < place[x] && weights2[x] == light[x] by {
        if place[x] < i {
            assert(!chain.contains(x));
            assert(place[above[x]] < place[x]);
        } else {
            assert(place[x] == place[v]);
            assert(x == v);
            assert(chain.contains(chain[0]) && spot(chain, chain[0]) == 0);
        }
    }
    lemma_turned_total(weights, chain, light[v]);
    assert(light[v] <= weights[top]) by {
        assert(place[chain[m - 1]] >= i);
        assert(edge_of_weight(g, above[top], top, weights[top]));
        let k = choose|k: int| #[trigger]
            leads(g, above[top], k, top) && g[above[top]].edges[k].weight == weights[top];
        assert(leads(g, above[top], k, top));
    }
    (above2, weights2, rank2)
}

proof fn lemma_least_from(
    g: Seq<NodeModel>,
    order: Seq<int>,
    place: Seq<int>,
    light: Seq<int>,
    up: Seq<int>,
    above: Seq<int>,
    weights: Seq<int>,
    rank: Seq<int>,
    i: int,
)
    requires
        greedy(g, order, place, light, up),
        mirrored(g),
        hung_below(g, above, weights, rank),
        agrees(place, light, above, weights, i),
        1 <= i,
    ensures
        total(light, g.len() as int) <= total(weights, g.len() as int),
    decreases g.len() - i,
{
    let n = g.len() as int;
    if i >= n {
        assert forall|x: int| 1 <= x < n implies #[trigger] light[x] == weights[x] by {
            assert(place[x] < i);
            assert(place[above[x]] < place[x]);
        }
        lemma_total_same(light, weights, n);
    } else {
        let r = lemma_exchange(g, order, place, light, up, above, weights, rank, i);
        lemma_least_from(g, order, place, light, up, r.0, r.1, r.2, i + 1);
    }
}

/// Hanging each node, in some order, by a lightest edge that leads from the
/// nodes before it to the others weighs no more in all than any other way
/// of hanging the nodes below the first.
proof fn lemma_greedy_is_least(
    g: Seq<NodeModel>,
    order: Seq<int>,
    place: Seq<int>,
    light: Seq<int>,
    up: Seq<int>,
    above: Seq<int>,
    weights: Seq<int>,
    rank: Seq<int>,
)
    requires
        greedy(g, order, place, light, up),
        mirrored(g),
        hung_below(g, above, weights, rank),
    ensures
        total(light, g.len() as int) <= total(weights, g.len() as int),
{
    if g.len() > 0 {
        assert forall|x: int| 1 <= x < place.len() && place[x] < 1 implies place[#[trigger] above[x]]
            < place[x] && weights[x] == light[x] by {
            assert(place[x] == place[0]);
        }
        lemma_least_from(g, order, place, light, up, above, weights, rank, 1);
    }
}

/// For each node of `g` but the first, the weight of the edge by which it
/// hangs in the tree `t`.
pub open spec fn hanging_weights(t: Seq<NodeModel>, g: Seq<NodeModel>) -> Seq<int> {
    Seq::new(
        g.len(),
        |x: int|
            if x == 0 {
                0
            } else {
                t[index_of(t, g[x].label)].edges[0].weight as int
            },
    )
}

/// A tree on the nodes of `g` in which each node hangs by a lightest edge
/// from the nodes before it to the others weighs no more than any other way
/// of hanging the nodes of `g` below the first.
pub proof fn lemma_tree_is_least(
    t: Seq<NodeModel>,
    g: Seq<NodeModel>,
    above: Seq<int>,
    weights: Seq<int>,
    rank: Seq<int>,
)
    requires
        forall|a: int, b: int|
            0 <= a < b < g.len() ==> (#[trigger] g[a]).label != (#[trigger] g[b]).label,
        forall|a: int, b: int|
            0 <= a < b < t.len() ==> (#[trigger] t[a]).label != (#[trigger] t[b]).label,
        mirrored(g),
        t.len() == g.len(),
        forall|l: Seq<char>| has_label(t, l) <==> has_label(g, l),
        g.len() > 0 ==> t[0].label == g[0].label,
        hangs(t),
        drawn_from(t, g),
        light_cut(t, g),
        hung_below(g, above, weights, rank),
    ensures
        total(hanging_weights(t, g), g.len() as int) <= total(weights, g.len() as int),
{
    let n = g.len() as int;
    let order = Seq::new(g.len(), |m: int| index_of(g, t[m].label));
    let place = Seq::new(g.len(), |x: int| index_of(t, g[x].label));
    let light = hanging_weights(t, g);
    let up = Seq::new(g.len(), |x: int| index_of(g, t[index_of(t, g[x].label)].edges[0].to.label));
    assert forall|m: int| 0 <= m < n implies 0 <= #[trigger] order[m] < n && g[order[m]].label
        == t[m].label && place[order[m]] == m by {
        assert(has_label(t, t[m].label));
        assert(has_label(g, t[m].label));
        lemma_index_of(t, m);
    }
    assert forall|x: int| 0 <= x < n implies 0 <= #[trigger] place[x] < n && t[place[x]].label
        == g[x].label by {
        assert(has_label(g, g[x].label));
        assert(has_label(t, g[x].label));
    }
    assert forall|x: int, y: int|
        0 <= x < n && 0 <= y < n && #[trigger] place[x] == #[trigger] place[y] implies x == y by {
        lemma_index_of(g, x);
        lemma_index_of(g, y);
    }
    if n > 0 {
        lemma_index_of(t, 0);
        assert(place[0] == 0);
    }
    assert forall|x: int| 1 <= x < n implies 0 <= #[trigger] up[x] < n && place[up[x]] < place[x]
        && edge_of_weight(g, up[x], x, light[x]) by {
        let m = place[x];
        assert(m != place[0]);
        assert(t[m].edges.len() >= 1);
        let p = choose|p: int| 0 <= p < m && #[trigger] t[p].label == t[m].edges[0].to.label;
        let q = order[p];
        assert(q == up[x]);
        let e = t[m].edges[0];
        let w = e.weight;
        lemma_index_of(g, x);
        lemma_index_of(g, q);
        if has_edge(g, t[m].label, e.to.label, w) {
            let (a, k) = choose|a: int, k: int|
                0 <= a < g.len() && 0 <= k < g[a].edges.len() && g[a].label == t[m].label && (
                #[trigger] g[a].edges[k]).to.label == e.to.label && g[a].edges[k].weight == w;
            lemma_index_of(g, a);
            assert(a == x);
            assert(leads(g, x, k, q));
            assert(edge_of_weight(g, q, x, w as int));
        } else {
            assert(has_edge(g, e.to.label, t[m].label, w));
            let (a, k) = choose|a: int, k: int|
                0 <= a < g.len() && 0 <= k < g[a].edges.len() && g[a].label == e.to.label && (
                #[trigger] g[a].edges[k]).to.label == t[m].label && g[a].edges[k].weight == w;
            lemma_index_of(g, a);
            assert(a == q);
            assert(leads(g, q, k, x));
        }
        assert(edge_of_weight(g, q, x, light[x]));
    }
    assert forall|x: int, a: int, k: int, b: int|
        #![trigger light[x], leads(g, a, k, b)]
        1 <= x < n && 0 <= a < n && 0 <= b < n && leads(g, a, k, b) && place[a] < place[x]
            <= place[b] implies light[x] <= g[a].edges[k].weight by {
        let i = place[x];
        assert(t[place[a]].label == g[a].label);
        assert(stands_before(t, i, g[a].label));
        if stands_before(t, i, g[a].edges[k].to.label) {
            let c = choose|c: int|
                0 <= c < i && c < t.len() && #[trigger] t[c].label == g[a].edges[k].to.label;
            lemma_index_of(t, c);
            assert(place[b] == c);
        }
        assert(t[i].edges[0].weight <= g[a].edges[k].weight);
    }
    lemma_greedy_is_least(g, order, place, light, up, above, weights, rank);
}

} // verus!
