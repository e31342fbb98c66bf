//! Visiting what a node of a directed graph reaches, depth first or breadth
//! first.

use super::reach::{
    explored, lemma_arc, lemma_marked_reach, lemma_reaches_self, lemma_reaches_step,
    lemma_reaches_trans, marked, reaches,
};
use super::{
    has_vertex, labels, lemma_vertex_index, vertex_index, Graph, GraphNode, Stack, Vertex,
};
use crate::marks::{count_true, lemma_count_true_bound, lemma_count_true_more, lemma_count_true_none};
use vstd::prelude::*;

verus! {

/// Whether the marks say exactly which vertices the list of names holds, and
/// the list holds no name twice and only names of vertices.
pub(super) open spec fn tally(g: Seq<Vertex>, marks: Seq<bool>, names: Seq<Seq<char>>) -> bool {
    &&& marks.len() == g.len()
    &&& names.len() == count_true(marks)
    &&& names.no_duplicates()
    &&& forall|i: int| 0 <= i < g.len() ==> (marks[i] <==> names.contains(#[trigger] g[i].label))
    &&& forall|j: int| 0 <= j < names.len() ==> has_vertex(g, #[trigger] names[j])
}

/// What a walk that begins at the vertex at `at` adds to the names `seen`:
/// the label of the vertex, then, edge by edge, what the walk from the far
/// end of the edge adds unless the far end was seen before.
pub open spec fn visit(g: Seq<Vertex>, at: int, seen: Seq<Seq<char>>) -> Seq<Seq<char>>
    decreases g.len() - seen.len(), 0int, 0int,
{
    if seen.len() >= g.len() || at < 0 || at >= g.len() {
        seen
    } else {
        visit_edges(g, at, 0, seen.push(g[at].label))
    }
}

/// What the walks along the edges of the vertex at `at`, from edge `k` on,
/// add to the names `seen`.
pub open spec fn visit_edges(g: Seq<Vertex>, at: int, k: int, seen: Seq<Seq<char>>) -> Seq<
    Seq<char>,
>
    decreases g.len() - seen.len(), 1int, g[at].targets.len() - k,
{
    if k < 0 || k >= g[at].targets.len() || seen.len() > g.len() {
        seen
    } else {
        let t = g[at].targets[k];
        let next = if seen.contains(t) || !has_vertex(g, t) {
            seen
        } else {
            visit(g, vertex_index(g, t), seen)
        };
        let kept = if seen.len() <= next.len() <= g.len() {
            next
        } else {
            seen
        };
        visit_edges(g, at, k + 1, kept)
    }
}

/// The labels of `targets` that are not among `seen`, in order.
pub open spec fn unseen(targets: Seq<Seq<char>>, seen: Seq<Seq<char>>) -> Seq<Seq<char>>
    decreases targets.len(),
{
    if targets.len() == 0 {
        Seq::empty()
    } else if seen.contains(targets.last()) {
        unseen(targets.drop_last(), seen)
    } else {
        unseen(targets.drop_last(), seen).push(targets.last())
    }
}

/// What a sweep adds to the names `seen` that always takes the last pending
/// label, passes over it where it was seen before, and otherwise names it
/// and appends the far ends of its edges that were not seen.
pub open spec fn sweep_stack(g: Seq<Vertex>, pending: Seq<Seq<char>>, seen: Seq<Seq<char>>) -> Seq<
    Seq<char>,
>
    decreases g.len() - seen.len(), pending.len(),
{
    if pending.len() == 0 {
        seen
    } else if seen.contains(pending.last()) || !has_vertex(g, pending.last()) || seen.len()
        >= g.len() {
        sweep_stack(g, pending.drop_last(), seen)
    } else {
        let named = seen.push(pending.last());
        sweep_stack(
            g,
            pending.drop_last() + unseen(g[vertex_index(g, pending.last())].targets, named),
            named,
        )
    }
}

/// What a sweep adds to the names `seen` that always takes the first
/// pending label, passes over it where it was seen before, and otherwise
/// names it and appends the far ends of its edges that were not seen.
pub open spec fn sweep_queue(g: Seq<Vertex>, pending: Seq<Seq<char>>, seen: Seq<Seq<char>>) -> Seq<
    Seq<char>,
>
    decreases g.len() - seen.len(), pending.len(),
{
    if pending.len() == 0 {
        seen
    } else if seen.contains(pending[0]) || !has_vertex(g, pending[0]) || seen.len() >= g.len() {
        sweep_queue(g, pending.drop_first(), seen)
    } else {
        let named = seen.push(pending[0]);
        sweep_queue(
            g,
            pending.drop_first() + unseen(g[vertex_index(g, pending[0])].targets, named),
            named,
        )
    }
}

/// Marking an unmarked vertex and appending its name keeps the tally.
pub(super) proof fn lemma_tally_mark(
    g: Seq<Vertex>,
    marks: Seq<bool>,
    names: Seq<Seq<char>>,
    at: int,
)
    requires
        forall|a: int, b: int| 0 <= a < b < g.len() ==> (#[trigger] g[a]).label != (#[trigger] g[b]).label,
        tally(g, marks, names),
        0 <= at < g.len(),
        !marks[at],
    ensures
        tally(g, marks.update(at, true), names.push(g[at].label)),
{
    let m1 = marks.update(at, true);
    let n1 = names.push(g[at].label);
    crate::marks::lemma_count_true_set(marks, at);
    assert(!names.contains(g[at].label));
    assert forall|i: int, j: int| 0 <= i < n1.len() && 0 <= j < n1.len() && i != j implies n1[i]
        != n1[j] by {
        if i == names.len() {
            assert(names[j] == n1[j]);
            assert(names.contains(names[j]));
        } else if j == names.len() {
            assert(names[i] == n1[i]);
            assert(names.contains(names[i]));
        } else {
            assert(names[i] != names[j]);
        }
    }
    assert forall|i: int| 0 <= i < g.len() implies (m1[i] <==> n1.contains(#[trigger] g[i].label)) by {
        if i == at {
            assert(n1[names.len() as int] == g[i].label);
        } else {
            if at < i {
                assert(g[at].label != g[i].label);
            } else {
                assert(g[i].label != g[at].label);
            }
            if names.contains(g[i].label) {
                let j = choose|j: int| 0 <= j < names.len() && names[j] == g[i].label;
                assert(n1[j] == g[i].label);
            }
            if n1.contains(g[i].label) {
                let j = choose|j: int| 0 <= j < n1.len() && n1[j] == g[i].label;
                assert(names[j] == g[i].label);
            }
        }
    }
    assert forall|j: int| 0 <= j < n1.len() implies has_vertex(g, #[trigger] n1[j]) by {
        if j < names.len() {
            assert(n1[j] == names[j]);
        } else {
            lemma_vertex_index(g, at);
        }
    }
}

/// What a list of marks gained over another: only vertices that `from`
/// reaches, each of them explored.
pub(super) open spec fn gained(
    g: Seq<Vertex>,
    from: int,
    m0: Seq<bool>,
    m1: Seq<bool>,
    except: int,
) -> bool {
    &&& m0.len() == g.len() && m1.len() == g.len()
    &&& forall|i: int| 0 <= i < g.len() && m0[i] ==> #[trigger] m1[i]
    &&& forall|i: int|
        0 <= i < g.len() && #[trigger] m1[i] && !m0[i] && i != except ==> reaches(
            g,
            g[from].label,
            g[i].label,
        ) && explored(g, m1, i)
}

/// Marks that grow keep what was explored.
pub(super) proof fn lemma_explored_grows(g: Seq<Vertex>, m1: Seq<bool>, m2: Seq<bool>, i: int)
    requires
        m1.len() == g.len(),
        m2.len() == g.len(),
        forall|a: int| 0 <= a < g.len() && m1[a] ==> #[trigger] m2[a],
        explored(g, m1, i),
    ensures
        explored(g, m2, i),
{
    assert forall|k: int| 0 <= k < g[i].targets.len() implies marked(
        g,
        m2,
        #[trigger] g[i].targets[k],
    ) by {
        assert(marked(g, m1, g[i].targets[k]));
        let j = choose|j: int|
            0 <= j < g.len() && j < m1.len() && #[trigger] g[j].label == g[i].targets[k] && m1[j];
        assert(m2[j]);
    }
}

/// What the marks gained below a neighbour, they gained below the node.
pub(super) proof fn lemma_gained_below(
    g: Seq<Vertex>,
    at: int,
    below: int,
    m0: Seq<bool>,
    m1: Seq<bool>,
    m2: Seq<bool>,
)
    requires
        0 <= at < g.len(),
        0 <= below < g.len(),
        reaches(g, g[at].label, g[below].label),
        gained(g, at, m0, m1, at),
        gained(g, below, m1, m2, -1),
    ensures
        gained(g, at, m0, m2, at),
{
    assert forall|i: int|
        0 <= i < g.len() && #[trigger] m2[i] && !m0[i] && i != at implies reaches(
        g,
        g[at].label,
        g[i].label,
    ) && explored(g, m2, i) by {
        if m1[i] {
            lemma_explored_grows(g, m1, m2, i);
        } else {
            lemma_reaches_trans(g, g[at].label, g[below].label, g[i].label);
        }
    }
}

impl Graph {
    /// Visits the node at `at` and, edge by edge, what it reaches and is not
    /// yet marked, and appends each node to `order` as it is visited.
    fn depth_first_traversal_recursive_(
        &self,
        at: usize,
        marks: &mut Vec<bool>,
        order: &mut Vec<GraphNode>,
    )
        requires
            self.wf(),
            at < self@.len(),
            !old(marks)@[at as int],
            forall|l: Seq<char>| reaches(self@, self@[at as int].label, l) ==> has_vertex(self@, l),
            tally(self@, old(marks)@, labels(old(order)@)),
        ensures
            tally(self@, final(marks)@, labels(final(order)@)),
            final(marks)@[at as int],
            gained(self@, at as int, old(marks)@, final(marks)@, -1),
            final(order)@.len() > old(order)@.len(),
            labels(final(order)@).take(old(order)@.len() as int) == labels(old(order)@),
            labels(final(order)@)[old(order)@.len() as int] == self@[at as int].label,
            labels(final(order)@) == visit(self@, at as int, labels(old(order)@)),
        decreases self@.len() - count_true(old(marks)@),
    {
        let ghost g = self@;
        let ghost m0 = marks@;
        let ghost o0 = order@;
        proof {
            lemma_tally_mark(g, marks@, labels(order@), at as int);
            lemma_count_true_bound(marks@);
            lemma_count_true_bound(marks@.update(at as int, true));
        }
        marks[at] = true;
        order.push(self.entries[at].node.clone());
        proof {
            assert(labels(order@) =~= labels(o0).push(g[at as int].label));
            assert(labels(order@).take(o0.len() as int) =~= labels(o0));
            assert(labels(o0).len() < g.len());
        }
        let mut k: usize = 0;
        while k < self.entries[at].neighbours.len()
            invariant
                g == self@,
                self.wf(),
                at < g.len(),
                m0 == old(marks)@,
                !m0[at as int],
                k <= self.entries[at as int].neighbours.len(),
                self.entries[at as int].neighbours.len() == g[at as int].targets.len(),
                forall|l: Seq<char>| reaches(g, g[at as int].label, l) ==> has_vertex(g, l),
                tally(g, marks@, labels(order@)),
                marks@[at as int],
                gained(g, at as int, m0, marks@, at as int),
                forall|j: int| 0 <= j < k ==> marked(g, marks@, #[trigger] g[at as int].targets[j]),
                order@.len() > o0.len(),
                labels(order@).take(o0.len() as int) == labels(o0),
                labels(order@)[o0.len() as int] == g[at as int].label,
                visit(g, at as int, labels(o0)) == visit_edges(
                    g,
                    at as int,
                    k as int,
                    labels(order@),
                ),
            decreases self.entries[at as int].neighbours.len() - k,
        {
            let neighbour = &self.entries[at].neighbours[k];
            proof {
                assert(g[at as int].targets[k as int] == neighbour@);
                lemma_arc(g, at as int, k as int);
                lemma_reaches_self(g, g[at as int].label);
                lemma_reaches_step(g, g[at as int].label, g[at as int].label, neighbour@);
            }
            let found = self.position(neighbour.label());
            let j = found.unwrap();
            let ghost m1 = marks@;
            let ghost o1 = order@;
            proof {
                lemma_vertex_index(g, j as int);
                assert(marks@[j as int] <==> labels(order@).contains(g[j as int].label));
            }
            if !marks[j] {
                proof {
                    lemma_count_true_more(m0, m1, at as int);
                    lemma_count_true_bound(m1);
                    lemma_count_true_bound(m0);
                    assert forall|l: Seq<char>| reaches(g, g[j as int].label, l) implies has_vertex(
                        g,
                        l,
                    ) by {
                        lemma_reaches_trans(g, g[at as int].label, g[j as int].label, l);
                    }
                }
                self.depth_first_traversal_recursive_(j, marks, order);
                proof {
                    lemma_gained_below(g, at as int, j as int, m0, m1, marks@);
                    assert(labels(order@).take(o0.len() as int) =~= labels(o1).take(
                        o0.len() as int,
                    )) by {
                        assert(labels(order@).take(o1.len() as int) == labels(o1));
                        assert forall|x: int| 0 <= x < o0.len() implies labels(order@)[x] == labels(
                            o1,
                        )[x] by {
                            assert(labels(order@).take(o1.len() as int)[x] == labels(order@)[x]);
                        }
                    }
                    assert(labels(order@)[o0.len() as int] == labels(order@).take(
                        o1.len() as int,
                    )[o0.len() as int]);
                }
            }
            proof {
                lemma_count_true_bound(m1);
                lemma_count_true_bound(marks@);
                let t = g[at as int].targets[k as int];
                assert(t == g[j as int].label);
                assert(vertex_index(g, t) == j);
                assert(has_vertex(g, t));
                if m1[j as int] {
                    assert(labels(o1).contains(t));
                    assert(labels(order@) == labels(o1));
                } else {
                    assert(!labels(o1).contains(t));
                    assert(labels(order@) == visit(g, j as int, labels(o1)));
                }
                assert(visit_edges(g, at as int, k as int, labels(o1)) == visit_edges(
                    g,
                    at as int,
                    k + 1,
                    labels(order@),
                ));
                assert(marks@[j as int]);
                assert forall|x: int| 0 <= x < k + 1 implies marked(
                    g,
                    marks@,
                    #[trigger] g[at as int].targets[x],
                ) by {
                    if x < k {
                        assert(marked(g, m1, g[at as int].targets[x]));
                        let w = choose|w: int|
                            0 <= w < g.len() && w < m1.len() && #[trigger] g[w].label
                                == g[at as int].targets[x] && m1[w];
                        assert(marks@[w]);
                    } else {
                        assert(g[j as int].label == g[at as int].targets[x]);
                    }
                }
            }
            k += 1;
        }
        proof {
            assert(explored(g, marks@, at as int));
            lemma_reaches_self(g, g[at as int].label);
            assert forall|i: int|
                0 <= i < g.len() && #[trigger] marks@[i] && !m0[i] && i != -1 implies reaches(
                g,
                g[at as int].label,
                g[i].label,
            ) && explored(g, marks@, i) by {
                if i != at {
                    assert(gained(g, at as int, m0, marks@, at as int));
                }
            }
        }
    }

    /// The nodes that `root` reaches, `root` first, in the order in which a
    /// walk that always follows the oldest untried edge of the newest node
    /// meets them. Nothing where `root` is not a node.
    pub fn depth_first_traversal_recursive(&self, root: String) -> (order: Vec<GraphNode>)
        requires
            self.wf(),
            forall|l: Seq<char>| has_vertex(self@, root@) && reaches(self@, root@, l) ==> has_vertex(self@, l),
        ensures
            !has_vertex(self@, root@) ==> order@.len() == 0,
            has_vertex(self@, root@) ==> {
                &&& labels(order@) == visit(self@, vertex_index(self@, root@), Seq::empty())
                &&& labels(order@).no_duplicates()
                &&& order@.len() >= 1 && labels(order@)[0] == root@
                &&& forall|l: Seq<char>| labels(order@).contains(l) <==> reaches(self@, root@, l)
            },
    {
        let mut order: Vec<GraphNode> = Vec::new();
        let at = match self.position(&root) {
            Some(at) => at,
            None => {
                return order;
            },
        };
        let mut marks = self.no_marks();
        let ghost g = self@;
        proof {
            assert(labels(order@) =~= Seq::<Seq<char>>::empty());
            assert(tally(g, marks@, labels(order@)));
        }
        proof {
            lemma_vertex_index(g, at as int);
        }
        self.depth_first_traversal_recursive_(at, &mut marks, &mut order);
        proof {
            lemma_reached(g, at as int, marks@, labels(order@));
        }
        order
    }

    /// One unset mark for each node.
    pub(super) fn no_marks(&self) -> (marks: Vec<bool>)
        ensures
            marks@.len() == self@.len(),
            forall|i: int| 0 <= i < marks@.len() ==> !(#[trigger] marks@[i]),
            count_true(marks@) == 0,
    {
        let mut marks: Vec<bool> = Vec::new();
        let mut i: usize = 0;
        while i < self.entries.len()
            invariant
                i <= self.entries.len(),
                marks@.len() == i,
                forall|j: int| 0 <= j < i ==> !(#[trigger] marks@[j]),
            decreases self.entries.len() - i,
        {
            marks.push(false);
            i += 1;
        }
        proof {
            lemma_count_true_none(marks@);
        }
        marks
    }
}

/// Once the marks hold the start and every marked vertex is explored and
/// reached from the start, the names are exactly what the start reaches.
pub(super) proof fn lemma_reached(g: Seq<Vertex>, at: int, marks: Seq<bool>, names: Seq<Seq<char>>)
    requires
        forall|a: int, b: int| 0 <= a < b < g.len() ==> (#[trigger] g[a]).label != (#[trigger] g[b]).label,
        0 <= at < g.len(),
        tally(g, marks, names),
        marks[at],
        forall|i: int|
            0 <= i < g.len() && #[trigger] marks[i] ==> reaches(g, g[at].label, g[i].label)
                && explored(g, marks, i),
    ensures
        forall|l: Seq<char>| names.contains(l) <==> reaches(g, g[at].label, l),
{
    assert forall|l: Seq<char>| names.contains(l) <==> reaches(g, g[at].label, l) by {
        if names.contains(l) {
            let j = choose|j: int| 0 <= j < names.len() && names[j] == l;
            assert(has_vertex(g, names[j]));
            let i = choose|i: int| 0 <= i < g.len() && #[trigger] g[i].label == l;
            assert(names.contains(g[i].label));
            assert(marks[i]);
        }
        if reaches(g, g[at].label, l) {
            lemma_marked_reach(g, marks, at, l);
            let j = choose|j: int|
                0 <= j < g.len() && j < marks.len() && #[trigger] g[j].label == l && marks[j];
            assert(names.contains(g[j].label));
        }
    }
}

/// Whether every edge of vertex `i` leads to a marked vertex or to a label
/// that waits in `pending`.
pub(super) open spec fn waiting(
    g: Seq<Vertex>,
    marks: Seq<bool>,
    pending: Seq<Seq<char>>,
    i: int,
    upto: int,
) -> bool {
    forall|k: int|
        0 <= k < upto ==> marked(g, marks, #[trigger] g[i].targets[k]) || pending.contains(
            g[i].targets[k],
        )
}

/// What a sweep from vertex `at` keeps true: the marks tally with the names
/// of the visited nodes, every pending label and every marked vertex is
/// reached from `at`, and every edge of a marked vertex other than `except`
/// leads to a marked vertex or a pending label. Before the first visit the
/// start alone is pending; after it the start is the first name.
pub(super) open spec fn sweep_ok(
    g: Seq<Vertex>,
    at: int,
    marks: Seq<bool>,
    names: Seq<Seq<char>>,
    pending: Seq<Seq<char>>,
    except: int,
) -> bool {
    &&& 0 <= at < g.len()
    &&& tally(g, marks, names)
    &&& forall|j: int| 0 <= j < pending.len() ==> reaches(g, g[at].label, #[trigger] pending[j])
    &&& forall|i: int|
        0 <= i < g.len() && #[trigger] marks[i] ==> reaches(g, g[at].label, g[i].label)
    &&& forall|i: int|
        0 <= i < g.len() && #[trigger] marks[i] && i != except ==> waiting(
            g,
            marks,
            pending,
            i,
            g[i].targets.len() as int,
        )
    &&& names.len() == 0 ==> pending =~= seq![g[at].label]
    &&& names.len() > 0 ==> names[0] == g[at].label && marks[at]
}

/// Taking a pending label whose vertex is marked already.
pub(super) proof fn lemma_sweep_skip(
    g: Seq<Vertex>,
    at: int,
    marks: Seq<bool>,
    names: Seq<Seq<char>>,
    pending: Seq<Seq<char>>,
    p: int,
    c: int,
)
    requires
        sweep_ok(g, at, marks, names, pending, -1),
        0 <= p < pending.len(),
        0 <= c < g.len(),
        pending[p] == g[c].label,
        marks[c],
    ensures
        sweep_ok(g, at, marks, names, pending.remove(p), -1),
{
    let rest = pending.remove(p);
    assert(names.contains(g[c].label));
    assert forall|i: int| 0 <= i < g.len() && #[trigger] marks[i] && i != -1 implies waiting(
        g,
        marks,
        rest,
        i,
        g[i].targets.len() as int,
    ) by {
        assert(waiting(g, marks, pending, i, g[i].targets.len() as int));
        assert forall|k: int| 0 <= k < g[i].targets.len() implies marked(
            g,
            marks,
            #[trigger] g[i].targets[k],
        ) || rest.contains(g[i].targets[k]) by {
            let t = g[i].targets[k];
            if !marked(g, marks, t) {
                assert(pending.contains(t));
                let w = choose|w: int| 0 <= w < pending.len() && pending[w] == t;
                if w == p {
                    assert(g[c].label == t);
                    assert(marked(g, marks, t));
                } else if w < p {
                    assert(rest[w] == t);
                } else {
                    assert(rest[w - 1] == t);
                }
            }
        }
    }
    assert forall|j: int| 0 <= j < rest.len() implies reaches(g, g[at].label, #[trigger] rest[j]) by {
        if j < p {
            assert(rest[j] == pending[j]);
        } else {
            assert(rest[j] == pending[j + 1]);
        }
    }
}

/// Taking a pending label whose vertex is not marked yet, and marking it.
pub(super) proof fn lemma_sweep_visit(
    g: Seq<Vertex>,
    at: int,
    marks: Seq<bool>,
    names: Seq<Seq<char>>,
    pending: Seq<Seq<char>>,
    p: int,
    c: int,
)
    requires
        forall|a: int, b: int| 0 <= a < b < g.len() ==> (#[trigger] g[a]).label != (#[trigger] g[b]).label,
        sweep_ok(g, at, marks, names, pending, -1),
        0 <= p < pending.len(),
        0 <= c < g.len(),
        pending[p] == g[c].label,
        !marks[c],
    ensures
        sweep_ok(g, at, marks.update(c, true), names.push(g[c].label), pending.remove(p), c),
{
    let rest = pending.remove(p);
    let m1 = marks.update(c, true);
    let n1 = names.push(g[c].label);
    lemma_tally_mark(g, marks, names, c);
    assert(g[c].label == g[c].label);
    if names.len() == 0 {
        assert(pending[p] == g[at].label);
        if c < at {
            assert(g[c].label != g[at].label);
        } else if at < c {
            assert(g[at].label != g[c].label);
        }
    } else {
        assert(n1[0] == names[0]);
    }
    assert forall|i: int| 0 <= i < g.len() && #[trigger] m1[i] && i != c implies waiting(
        g,
        m1,
        rest,
        i,
        g[i].targets.len() as int,
    ) by {
        assert(marks[i]);
        assert(waiting(g, marks, pending, i, g[i].targets.len() as int));
        assert forall|k: int| 0 <= k < g[i].targets.len() implies marked(
            g,
            m1,
            #[trigger] g[i].targets[k],
        ) || rest.contains(g[i].targets[k]) by {
            let t = g[i].targets[k];
            if marked(g, marks, t) {
                let j = choose|j: int|
                    0 <= j < g.len() && j < marks.len() && #[trigger] g[j].label == t && marks[j];
                assert(m1[j]);
            } else {
                assert(pending.contains(t));
                let w = choose|w: int| 0 <= w < pending.len() && pending[w] == t;
                if w == p {
                    assert(g[c].label == t && m1[c]);
                } else if w < p {
                    assert(rest[w] == t);
                } else {
                    assert(rest[w - 1] == t);
                }
            }
        }
    }
    assert forall|j: int| 0 <= j < rest.len() implies reaches(g, g[at].label, #[trigger] rest[j]) by {
        if j < p {
            assert(rest[j] == pending[j]);
        } else {
            assert(rest[j] == pending[j + 1]);
        }
    }
    assert forall|i: int| 0 <= i < g.len() && #[trigger] m1[i] implies reaches(
        g,
        g[at].label,
        g[i].label,
    ) by {
        if i != c {
            assert(marks[i]);
        }
    }
}

/// Looking at edge `k` of the vertex `c` under visit: its far end is marked
/// already, or it is appended to the pending labels.
pub(super) proof fn lemma_sweep_edge(
    g: Seq<Vertex>,
    at: int,
    marks: Seq<bool>,
    names: Seq<Seq<char>>,
    pending: Seq<Seq<char>>,
    c: int,
    k: int,
    j: int,
)
    requires
        sweep_ok(g, at, marks, names, pending, c),
        0 <= c < g.len(),
        marks[c],
        0 <= k < g[c].targets.len(),
        waiting(g, marks, pending, c, k),
        0 <= j < g.len(),
        g[j].label == g[c].targets[k],
    ensures
        reaches(g, g[at].label, g[j].label),
        marks[j] ==> waiting(g, marks, pending, c, k + 1),
        !marks[j] ==> sweep_ok(g, at, marks, names, pending.push(g[j].label), c) && waiting(
            g,
            marks,
            pending.push(g[j].label),
            c,
            k + 1,
        ),
{
    let t = g[j].label;
    let more = pending.push(t);
    lemma_arc(g, c, k);
    lemma_reaches_step(g, g[at].label, g[c].label, t);
    assert(more[pending.len() as int] == t);
    assert forall|x: Seq<char>| pending.contains(x) implies more.contains(x) by {
        let w = choose|w: int| 0 <= w < pending.len() && pending[w] == x;
        assert(more[w] == x);
    }
    if !marks[j] {
        assert forall|i: int| 0 <= i < g.len() && #[trigger] marks[i] && i != c implies waiting(
            g,
            marks,
            more,
            i,
            g[i].targets.len() as int,
        ) by {
            assert(waiting(g, marks, pending, i, g[i].targets.len() as int));
        }
        assert forall|w: int| 0 <= w < more.len() implies reaches(
            g,
            g[at].label,
            #[trigger] more[w],
        ) by {
            if w < pending.len() {
                assert(more[w] == pending[w]);
            }
        }
        assert(names.len() > 0) by {
            assert(names.contains(g[c].label));
        }
    }
}

/// Once nothing is pending, the names are exactly what the start reaches.
pub(super) proof fn lemma_sweep_end(
    g: Seq<Vertex>,
    at: int,
    marks: Seq<bool>,
    names: Seq<Seq<char>>,
    pending: Seq<Seq<char>>,
)
    requires
        forall|a: int, b: int| 0 <= a < b < g.len() ==> (#[trigger] g[a]).label != (#[trigger] g[b]).label,
        sweep_ok(g, at, marks, names, pending, -1),
        pending.len() == 0,
    ensures
        names.no_duplicates(),
        names.len() >= 1 && names[0] == g[at].label,
        forall|l: Seq<char>| names.contains(l) <==> reaches(g, g[at].label, l),
{
    assert(names.len() > 0);
    assert forall|i: int| 0 <= i < g.len() && #[trigger] marks[i] implies reaches(
        g,
        g[at].label,
        g[i].label,
    ) && explored(g, marks, i) by {
        assert(waiting(g, marks, pending, i, g[i].targets.len() as int));
        assert forall|k: int| 0 <= k < g[i].targets.len() implies marked(
            g,
            marks,
            #[trigger] g[i].targets[k],
        ) by {
            assert(!pending.contains(g[i].targets[k]));
        }
    }
    lemma_reached(g, at, marks, names);
}

impl Graph {
    /// Appends to `pending` the far end of every edge of the node at `c`
    /// whose far end is not marked.
    fn push_unmarked(
        &self,
        c: usize,
        marks: &Vec<bool>,
        pending: &mut Vec<GraphNode>,
        Ghost(at): Ghost<int>,
        Ghost(names): Ghost<Seq<Seq<char>>>,
    )
        requires
            self.wf(),
            c < self@.len(),
            marks@[c as int],
            forall|l: Seq<char>| reaches(self@, self@[at].label, l) ==> has_vertex(self@, l),
            sweep_ok(self@, at, marks@, names, labels(old(pending)@), c as int),
        ensures
            sweep_ok(self@, at, marks@, names, labels(final(pending)@), -1),
            final(pending)@.len() >= old(pending)@.len(),
            labels(final(pending)@) == labels(old(pending)@) + unseen(
                self@[c as int].targets,
                names,
            ),
    {
        let ghost g = self@;
        let mut k: usize = 0;
        proof {
            assert(g[c as int].targets.take(0) =~= Seq::<Seq<char>>::empty());
            assert(labels(pending@) + Seq::<Seq<char>>::empty() =~= labels(pending@));
        }
        while k < self.entries[c].neighbours.len()
            invariant
                g == self@,
                self.wf(),
                c < g.len(),
                marks@[c as int],
                k <= self.entries[c as int].neighbours.len(),
                self.entries[c as int].neighbours.len() == g[c as int].targets.len(),
                forall|l: Seq<char>| reaches(g, g[at].label, l) ==> has_vertex(g, l),
                sweep_ok(g, at, marks@, names, labels(pending@), c as int),
                waiting(g, marks@, labels(pending@), c as int, k as int),
                pending@.len() >= old(pending)@.len(),
                labels(pending@) == labels(old(pending)@) + unseen(
                    g[c as int].targets.take(k as int),
                    names,
                ),
            decreases self.entries[c as int].neighbours.len() - k,
        {
            let neighbour = &self.entries[c].neighbours[k];
            proof {
                assert(g[c as int].targets[k as int] == neighbour@);
                lemma_arc(g, c as int, k as int);
                lemma_reaches_step(g, g[at].label, g[c as int].label, neighbour@);
            }
            let found = self.position(neighbour.label());
            let j = found.unwrap();
            proof {
                lemma_sweep_edge(
                    g,
                    at,
                    marks@,
                    names,
                    labels(pending@),
                    c as int,
                    k as int,
                    j as int,
                );
                let upto = g[c as int].targets.take(k + 1);
                assert(upto.drop_last() =~= g[c as int].targets.take(k as int));
                assert(upto.last() == g[j as int].label);
                assert(marks@[j as int] <==> names.contains(g[j as int].label));
            }
            if !marks[j] {
                let ghost before = labels(pending@);
                pending.push(neighbour.clone());
                proof {
                    assert(labels(pending@) =~= before.push(g[j as int].label));
                    assert(labels(pending@) =~= labels(old(pending)@) + unseen(
                        g[c as int].targets.take(k + 1),
                        names,
                    ));
                }
            }
            k += 1;
        }
        proof {
            assert(g[c as int].targets.take(g[c as int].targets.len() as int)
                =~= g[c as int].targets);
        }
    }

    /// The nodes that `root` reaches, `root` first, in the order in which
    /// they leave a stack that takes the unvisited neighbours of each node
    /// visited. Nothing where `root` is not a node.
    pub fn depth_first_traversal_iterative(&self, root: String) -> (order: Vec<GraphNode>)
        requires
            self.wf(),
            forall|l: Seq<char>| has_vertex(self@, root@) && reaches(self@, root@, l) ==> has_vertex(self@, l),
        ensures
            !has_vertex(self@, root@) ==> order@.len() == 0,
            has_vertex(self@, root@) ==> {
                &&& labels(order@) == sweep_stack(self@, seq![root@], Seq::empty())
                &&& labels(order@).no_duplicates()
                &&& order@.len() >= 1 && labels(order@)[0] == root@
                &&& forall|l: Seq<char>| labels(order@).contains(l) <==> reaches(self@, root@, l)
            },
    {
        let mut order: Vec<GraphNode> = Vec::new();
        let at = match self.position(&root) {
            Some(at) => at,
            None => {
                return order;
            },
        };
        let mut marks = self.no_marks();
        let mut stack: Stack<GraphNode> = Stack::new();
        stack.push(self.entries[at].node.clone());
        let ghost g = self@;
        proof {
            assert(labels(order@) =~= Seq::<Seq<char>>::empty());
            assert(labels(stack@) =~= seq![g[at as int].label]);
            lemma_reaches_self(g, g[at as int].label);
        }
        while !stack.is_empty()
            invariant
                g == self@,
                self.wf(),
                at < g.len(),
                root@ == g[at as int].label,
                forall|l: Seq<char>| reaches(g, g[at as int].label, l) ==> has_vertex(g, l),
                sweep_ok(g, at as int, marks@, labels(order@), labels(stack@), -1),
                sweep_stack(g, labels(stack@), labels(order@)) == sweep_stack(
                    g,
                    seq![root@],
                    Seq::empty(),
                ),
            decreases g.len() - count_true(marks@), stack@.len(),
        {
            let ghost pending = labels(stack@);
            let ghost m0 = marks@;
            let current = match stack.pop() {
                Some(current) => current,
                None => {
                    return order;
                },
            };
            let ghost seen = labels(order@);
            proof {
                assert(labels(stack@) =~= pending.remove(pending.len() - 1));
                assert(labels(stack@) =~= pending.drop_last());
                assert(pending[pending.len() - 1] == current@);
                lemma_count_true_bound(m0);
            }
            let found = self.position(current.label());
            let c = found.unwrap();
            proof {
                lemma_vertex_index(g, c as int);
                assert(marks@[c as int] <==> seen.contains(g[c as int].label));
            }
            if marks[c] {
                proof {
                    lemma_sweep_skip(
                        g,
                        at as int,
                        marks@,
                        labels(order@),
                        pending,
                        pending.len() - 1,
                        c as int,
                    );
                }
            } else {
                proof {
                    lemma_sweep_visit(
                        g,
                        at as int,
                        marks@,
                        labels(order@),
                        pending,
                        pending.len() - 1,
                        c as int,
                    );
                    crate::marks::lemma_count_true_set(m0, c as int);
                    lemma_count_true_bound(m0.update(c as int, true));
                }
                let ghost names = labels(order@);
                marks[c] = true;
                order.push(current);
                proof {
                    assert(labels(order@) =~= names.push(g[c as int].label));
                }
                let mut rest = stack.into_vec();
                self.push_unmarked(c, &marks, &mut rest, Ghost(at as int), Ghost(labels(order@)));
                stack = Stack::from_vec(rest);
                proof {
                    assert(seen.len() < g.len());
                    assert(sweep_stack(g, pending, seen) == sweep_stack(
                        g,
                        labels(stack@),
                        labels(order@),
                    ));
                }
            }
        }
        proof {
            lemma_sweep_end(g, at as int, marks@, labels(order@), labels(stack@));
        }
        order
    }

    /// The nodes that `root` reaches, `root` first, in the order in which
    /// they leave a queue that takes the unvisited neighbours of each node
    /// visited: nearer nodes before farther ones. Nothing where `root` is not
    /// a node.
    pub fn breadth_first_traversal(&self, root: String) -> (order: Vec<GraphNode>)
        requires
            self.wf(),
            forall|l: Seq<char>| has_vertex(self@, root@) && reaches(self@, root@, l) ==> has_vertex(self@, l),
        ensures
            !has_vertex(self@, root@) ==> order@.len() == 0,
            has_vertex(self@, root@) ==> {
                &&& labels(order@) == sweep_queue(self@, seq![root@], Seq::empty())
                &&& labels(order@).no_duplicates()
                &&& order@.len() >= 1 && labels(order@)[0] == root@
                &&& forall|l: Seq<char>| labels(order@).contains(l) <==> reaches(self@, root@, l)
            },
    {
        let mut order: Vec<GraphNode> = Vec::new();
        let at = match self.position(&root) {
            Some(at) => at,
            None => {
                return order;
            },
        };
        let mut marks = self.no_marks();
        let mut queue: Vec<GraphNode> = Vec::new();
        queue.push(self.entries[at].node.clone());
        let ghost g = self@;
        proof {
            assert(labels(order@) =~= Seq::<Seq<char>>::empty());
            assert(labels(queue@) =~= seq![g[at as int].label]);
            lemma_reaches_self(g, g[at as int].label);
        }
        while queue.len() > 0
            invariant
                g == self@,
                self.wf(),
                at < g.len(),
                root@ == g[at as int].label,
                forall|l: Seq<char>| reaches(g, g[at as int].label, l) ==> has_vertex(g, l),
                sweep_ok(g, at as int, marks@, labels(order@), labels(queue@), -1),
                sweep_queue(g, labels(queue@), labels(order@)) == sweep_queue(
                    g,
                    seq![root@],
                    Seq::empty(),
                ),
            decreases g.len() - count_true(marks@), queue@.len(),
        {
            let ghost pending = labels(queue@);
            let ghost m0 = marks@;
            let current = queue.remove(0);
            let ghost seen = labels(order@);
            proof {
                assert(labels(queue@) =~= pending.remove(0));
                assert(labels(queue@) =~= pending.drop_first());
                assert(pending[0] == current@);
                lemma_count_true_bound(m0);
            }
            let found = self.position(current.label());
            let c = found.unwrap();
            proof {
                lemma_vertex_index(g, c as int);
                assert(marks@[c as int] <==> seen.contains(g[c as int].label));
            }
            if marks[c] {
                proof {
                    lemma_sweep_skip(g, at as int, marks@, labels(order@), pending, 0, c as int);
                }
            } else {
                proof {
                    lemma_sweep_visit(g, at as int, marks@, labels(order@), pending, 0, c as int);
                    crate::marks::lemma_count_true_set(m0, c as int);
                    lemma_count_true_bound(m0.update(c as int, true));
                }
                let ghost names = labels(order@);
                marks[c] = true;
                order.push(current);
                proof {
                    assert(labels(order@) =~= names.push(g[c as int].label));
                }
                self.push_unmarked(c, &marks, &mut queue, Ghost(at as int), Ghost(labels(order@)));
                proof {
                    assert(seen.len() < g.len());
                    assert(sweep_queue(g, pending, seen) == sweep_queue(
                        g,
                        labels(queue@),
                        labels(order@),
                    ));
                }
            }
        }
        proof {
            lemma_sweep_end(g, at as int, marks@, labels(order@), labels(queue@));
        }
        order
    }
}

} // verus!
