//! Walks through a directed graph and what can be reached along them.

use super::{has_vertex, is_first_at, first_at, without_first, Vertex};
use vstd::prelude::*;

verus! {

/// Whether `g` has an edge from label `a` to label `b`.
pub open spec fn arc(g: Seq<Vertex>, a: Seq<char>, b: Seq<char>) -> bool {
    exists|i: int, k: int|
        0 <= i < g.len() && 0 <= k < g[i].targets.len() && g[i].label == a
            && #[trigger] g[i].targets[k] == b
}

/// Whether `p` is a walk: at least one label, each joined to the next by an edge.
pub open spec fn walk(g: Seq<Vertex>, p: Seq<Seq<char>>) -> bool {
    p.len() >= 1 && forall|k: int| 0 <= k < p.len() - 1 ==> arc(g, #[trigger] p[k], p[k + 1])
}

/// Whether a walk leads from `a` to `b`; every label reaches itself.
pub open spec fn reaches(g: Seq<Vertex>, a: Seq<char>, b: Seq<char>) -> bool {
    exists|p: Seq<Seq<char>>| #[trigger] walk(g, p) && p[0] == a && p.last() == b
}

/// Whether some walk of at least one edge ends where it began.
pub open spec fn cyclic(g: Seq<Vertex>) -> bool {
    exists|p: Seq<Seq<char>>| #[trigger] walk(g, p) && p.len() >= 2 && p[0] == p.last()
}

/// Whether every edge leads to a node of the graph.
pub open spec fn closed(g: Seq<Vertex>) -> bool {
    forall|i: int, k: int|
        0 <= i < g.len() && 0 <= k < g[i].targets.len() ==> has_vertex(
            g,
            #[trigger] g[i].targets[k],
        )
}

/// Whether `l` is the label of a marked vertex.
pub open spec fn marked(g: Seq<Vertex>, marks: Seq<bool>, l: Seq<char>) -> bool {
    exists|j: int| 0 <= j < g.len() && j < marks.len() && #[trigger] g[j].label == l && marks[j]
}

/// Whether every edge of vertex `i` leads to a marked vertex.
pub open spec fn explored(g: Seq<Vertex>, marks: Seq<bool>, i: int) -> bool {
    forall|k: int| 0 <= k < g[i].targets.len() ==> marked(g, marks, #[trigger] g[i].targets[k])
}

/// `first_at` is where its value first occurs, or the length of the list.
pub proof fn lemma_first_at_bound(s: Seq<Seq<char>>, l: Seq<char>)
    ensures
        is_first_at(s, l, first_at(s, l)),
    decreases s.len(),
{
    if s.len() == 0 {
        assert(is_first_at(s, l, 0));
    } else {
        let front = s.drop_last();
        lemma_first_at_bound(front, l);
        let i = first_at(front, l);
        if i < front.len() {
            assert forall|j: int| 0 <= j < i implies #[trigger] s[j] != l by {
                assert(front[j] != l);
            }
            assert(s[i] == front[i]);
            assert(is_first_at(s, l, i));
        } else if s.last() == l {
            assert forall|j: int| 0 <= j < s.len() - 1 implies #[trigger] s[j] != l by {
                assert(front[j] != l);
            }
            assert(is_first_at(s, l, s.len() - 1));
        } else {
            assert forall|j: int| 0 <= j < s.len() implies #[trigger] s[j] != l by {
                if j < s.len() - 1 {
                    assert(front[j] != l);
                }
            }
            assert(is_first_at(s, l, s.len() as int));
        }
    }
}

/// What is left without the first occurrence of a label was there before.
pub proof fn lemma_without_first_within(s: Seq<Seq<char>>, l: Seq<char>, k: int)
    requires
        0 <= k < without_first(s, l).len(),
    ensures
        s.contains(without_first(s, l)[k]),
{
    lemma_first_at_bound(s, l);
    let i = first_at(s, l);
    if i < s.len() {
        if k < i {
            assert(s[k] == without_first(s, l)[k]);
        } else {
            assert(s[k + 1] == without_first(s, l)[k]);
        }
    } else {
        assert(s[k] == without_first(s, l)[k]);
    }
}

/// A graph whose edges all lead to its nodes stays so with one more node.
pub proof fn lemma_closed_push(g: Seq<Vertex>, label: Seq<char>)
    requires
        closed(g),
    ensures
        closed(g.push(Vertex { label, targets: Seq::empty() })),
{
    let g1 = g.push(Vertex { label, targets: Seq::empty() });
    assert forall|i: int, k: int| 0 <= i < g1.len() && 0 <= k < g1[i].targets.len() implies has_vertex(
        g1,
        #[trigger] g1[i].targets[k],
    ) by {
        assert(g1[i] == g[i]);
        assert(has_vertex(g, g[i].targets[k]));
        let j = choose|j: int| 0 <= j < g.len() && #[trigger] g[j].label == g[i].targets[k];
        assert(g1[j].label == g[i].targets[k]);
    }
}

/// A graph whose edges all lead to its nodes stays so with one more edge
/// to one of its nodes.
pub proof fn lemma_closed_add(g: Seq<Vertex>, i: int, t: Seq<char>)
    requires
        closed(g),
        0 <= i < g.len(),
        has_vertex(g, t),
    ensures
        closed(g.update(i, Vertex { label: g[i].label, targets: g[i].targets.push(t) })),
{
    let g1 = g.update(i, Vertex { label: g[i].label, targets: g[i].targets.push(t) });
    assert forall|l: Seq<char>| has_vertex(g, l) implies has_vertex(g1, l) by {
        let j = choose|j: int| 0 <= j < g.len() && #[trigger] g[j].label == l;
        assert(g1[j].label == l);
    }
    assert forall|a: int, k: int| 0 <= a < g1.len() && 0 <= k < g1[a].targets.len() implies has_vertex(
        g1,
        #[trigger] g1[a].targets[k],
    ) by {
        if a == i && k == g[i].targets.len() {
        } else {
            assert(g1[a].targets[k] == g[a].targets[k]);
            assert(has_vertex(g, g[a].targets[k]));
        }
    }
}

/// A graph whose edges all lead to its nodes stays so with one edge less.
pub proof fn lemma_closed_drop(g: Seq<Vertex>, i: int, l: Seq<char>)
    requires
        closed(g),
        0 <= i < g.len(),
    ensures
        closed(g.update(i, Vertex { label: g[i].label, targets: without_first(g[i].targets, l) })),
{
    let g1 = g.update(i, Vertex { label: g[i].label, targets: without_first(g[i].targets, l) });
    assert forall|x: Seq<char>| has_vertex(g, x) implies has_vertex(g1, x) by {
        let j = choose|j: int| 0 <= j < g.len() && #[trigger] g[j].label == x;
        assert(g1[j].label == x);
    }
    assert forall|a: int, k: int| 0 <= a < g1.len() && 0 <= k < g1[a].targets.len() implies has_vertex(
        g1,
        #[trigger] g1[a].targets[k],
    ) by {
        if a == i {
            lemma_without_first_within(g[i].targets, l, k);
            let x = g1[a].targets[k];
            let k0 = choose|k0: int| 0 <= k0 < g[i].targets.len() && g[i].targets[k0] == x;
            assert(has_vertex(g, g[i].targets[k0]));
        } else {
            assert(g1[a].targets[k] == g[a].targets[k]);
            assert(has_vertex(g, g[a].targets[k]));
        }
    }
}

/// A graph whose edges all lead to its nodes stays so without one of its
/// nodes, where no other node had more than one edge to that node.
pub proof fn lemma_closed_remove(g: Seq<Vertex>, at: int, l: Seq<char>)
    requires
        closed(g),
        0 <= at < g.len(),
        g[at].label == l,
        forall|a: int, b: int| 0 <= a < b < g.len() ==> (#[trigger] g[a]).label != (#[trigger] g[b]).label,
        forall|i: int|
            0 <= i < g.len() && i != at ==> !without_first((#[trigger] g[i]).targets, l).contains(l),
    ensures
        closed(
            g.remove(at).map_values(
                |v: Vertex| Vertex { label: v.label, targets: without_first(v.targets, l) },
            ),
        ),
{
    let g1 = g.remove(at).map_values(
        |v: Vertex| Vertex { label: v.label, targets: without_first(v.targets, l) },
    );
    assert forall|a: int, k: int| 0 <= a < g1.len() && 0 <= k < g1[a].targets.len() implies has_vertex(
        g1,
        #[trigger] g1[a].targets[k],
    ) by {
        let a0 = if a < at {
            a
        } else {
            a + 1
        };
        assert(g.remove(at)[a] == g[a0]);
        let x = g1[a].targets[k];
        assert(x == without_first(g[a0].targets, l)[k]);
        lemma_without_first_within(g[a0].targets, l, k);
        let k0 = choose|k0: int| 0 <= k0 < g[a0].targets.len() && g[a0].targets[k0] == x;
        assert(has_vertex(g, g[a0].targets[k0]));
        let j = choose|j: int| 0 <= j < g.len() && #[trigger] g[j].label == x;
        assert(without_first(g[a0].targets, l).contains(x));
        assert(x != l);
        assert(j != at);
        let j1 = if j < at {
            j
        } else {
            j - 1
        };
        assert(g.remove(at)[j1] == g[j]);
        assert(g1[j1].label == x);
    }
}

/// In a graph whose edges all lead to its nodes, a node reaches nodes only.
pub proof fn lemma_closed_reaches(g: Seq<Vertex>, a: Seq<char>, l: Seq<char>)
    requires
        closed(g),
        has_vertex(g, a),
        reaches(g, a, l),
    ensures
        has_vertex(g, l),
{
    let p = choose|p: Seq<Seq<char>>| #[trigger] walk(g, p) && p[0] == a && p.last() == l;
    lemma_closed_walk(g, p, p.len() - 1);
}

/// In a graph whose edges all lead to its nodes, a walk from a node meets
/// nodes only.
pub proof fn lemma_closed_walk(g: Seq<Vertex>, p: Seq<Seq<char>>, m: int)
    requires
        closed(g),
        walk(g, p),
        has_vertex(g, p[0]),
        0 <= m < p.len(),
    ensures
        has_vertex(g, p[m]),
    decreases m,
{
    if m > 0 {
        lemma_closed_walk(g, p, m - 1);
        assert(arc(g, p[m - 1], p[(m - 1) + 1]));
        let (i, k) = choose|i: int, k: int|
            0 <= i < g.len() && 0 <= k < g[i].targets.len() && g[i].label == p[m - 1]
                && #[trigger] g[i].targets[k] == p[m];
        assert(has_vertex(g, g[i].targets[k]));
    }
}

/// Every label reaches itself.
pub proof fn lemma_reaches_self(g: Seq<Vertex>, a: Seq<char>)
    ensures
        reaches(g, a, a),
{
    let p = seq![a];
    assert(walk(g, p));
    assert(p[0] == a && p.last() == a);
}

/// A walk can be continued along an edge.
pub proof fn lemma_reaches_step(g: Seq<Vertex>, a: Seq<char>, b: Seq<char>, c: Seq<char>)
    requires
        reaches(g, a, b),
        arc(g, b, c),
    ensures
        reaches(g, a, c),
{
    let p = choose|p: Seq<Seq<char>>| #[trigger] walk(g, p) && p[0] == a && p.last() == b;
    let q = p.push(c);
    assert forall|k: int| 0 <= k < q.len() - 1 implies arc(g, #[trigger] q[k], q[k + 1]) by {
        if k < p.len() - 1 {
            assert(q[k] == p[k] && q[k + 1] == p[k + 1]);
        }
    }
    assert(walk(g, q));
    assert(q[0] == a && q.last() == c);
}

/// Two walks that meet make one.
pub proof fn lemma_reaches_trans(g: Seq<Vertex>, a: Seq<char>, b: Seq<char>, c: Seq<char>)
    requires
        reaches(g, a, b),
        reaches(g, b, c),
    ensures
        reaches(g, a, c),
{
    let p = choose|p: Seq<Seq<char>>| #[trigger] walk(g, p) && p[0] == a && p.last() == b;
    let r = choose|r: Seq<Seq<char>>| #[trigger] walk(g, r) && r[0] == b && r.last() == c;
    let q = p + r.drop_first();
    assert forall|k: int| 0 <= k < q.len() - 1 implies arc(g, #[trigger] q[k], q[k + 1]) by {
        if k < p.len() - 1 {
            assert(q[k] == p[k] && q[k + 1] == p[k + 1]);
        } else if k == p.len() - 1 {
            assert(q[k] == r[0] && q[k + 1] == r[1]);
        } else {
            let m = k - p.len() + 1;
            assert(q[k] == r[m] && q[k + 1] == r[m + 1]);
        }
    }
    assert(walk(g, q));
    assert(q[0] == a);
    if r.len() == 1 {
        assert(q =~= p);
    }
    assert(q.last() == c);
}

/// The first edge of a vertex makes an arc, and so does every other.
pub proof fn lemma_arc(g: Seq<Vertex>, i: int, k: int)
    requires
        0 <= i < g.len(),
        0 <= k < g[i].targets.len(),
    ensures
        arc(g, g[i].label, g[i].targets[k]),
{
    assert(g[i].targets[k] == g[i].targets[k]);
}

/// Where the start is marked and every marked vertex is explored, every
/// label that the start reaches belongs to a marked vertex.
pub proof fn lemma_marked_reach(g: Seq<Vertex>, marks: Seq<bool>, root: int, l: Seq<char>)
    requires
        forall|a: int, b: int| 0 <= a < b < g.len() ==> (#[trigger] g[a]).label != (#[trigger] g[b]).label,
        marks.len() == g.len(),
        0 <= root < g.len(),
        marks[root],
        forall|i: int| 0 <= i < g.len() && marks[i] ==> explored(g, marks, i),
        reaches(g, g[root].label, l),
    ensures
        marked(g, marks, l),
{
    let p = choose|p: Seq<Seq<char>>| #[trigger] walk(g, p) && p[0] == g[root].label && p.last() == l;
    lemma_marked_prefix(g, marks, root, p, p.len() - 1);
}

/// Every label on a walk from a marked start through explored vertices
/// belongs to a marked vertex.
proof fn lemma_marked_prefix(g: Seq<Vertex>, marks: Seq<bool>, root: int, p: Seq<Seq<char>>, m: int)
    requires
        forall|a: int, b: int| 0 <= a < b < g.len() ==> (#[trigger] g[a]).label != (#[trigger] g[b]).label,
        marks.len() == g.len(),
        0 <= root < g.len(),
        marks[root],
        forall|i: int| 0 <= i < g.len() && marks[i] ==> explored(g, marks, i),
        walk(g, p),
        p[0] == g[root].label,
        0 <= m < p.len(),
    ensures
        marked(g, marks, p[m]),
    decreases m,
{
    if m == 0 {
        assert(g[root].label == p[0]);
    } else {
        lemma_marked_prefix(g, marks, root, p, m - 1);
        let j = choose|j: int|
            0 <= j < g.len() && j < marks.len() && #[trigger] g[j].label == p[m - 1] && marks[j];
        assert(arc(g, p[m - 1], p[(m - 1) + 1]));
        let (i, k) = choose|i: int, k: int|
            0 <= i < g.len() && 0 <= k < g[i].targets.len() && g[i].label == p[m - 1]
                && #[trigger] g[i].targets[k] == p[m];
        if i < j {
            assert(g[i].label != g[j].label);
        } else if j < i {
            assert(g[j].label != g[i].label);
        }
        assert(explored(g, marks, j));
        assert(marked(g, marks, g[j].targets[k]));
    }
}

} // verus!
