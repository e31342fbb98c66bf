//! Ordering the nodes of a directed graph so that edges lead forwards.

use super::reach::{arc, closed, cyclic, lemma_arc, lemma_reaches_self, lemma_reaches_step, reaches, walk};
use super::{has_vertex, labels, lemma_vertex_index, Graph, GraphNode, Stack, Vertex};
use crate::marks::{count_true, lemma_count_true_bound, lemma_count_true_set};
use crate::text::texts;
use vstd::prelude::*;

verus! {

/// Whether `a` stands before `b` in `s`.
pub open spec fn before(s: Seq<Seq<char>>, a: Seq<char>, b: Seq<char>) -> bool {
    exists|x: int, y: int| 0 <= x < y < s.len() && #[trigger] s[x] == a && #[trigger] s[y] == b
}

/// What the finished names say of the marks: a vertex is named exactly when
/// it is marked and not under way, no name stands twice, every name is the
/// label of a vertex, and what is under way is marked.
spec fn finished(
    g: Seq<Vertex>,
    marks: Seq<bool>,
    under_way: Seq<bool>,
    names: Seq<Seq<char>>,
) -> bool {
    &&& marks.len() == g.len() && under_way.len() == g.len()
    &&& names.no_duplicates()
    &&& forall|j: int| 0 <= j < names.len() ==> has_vertex(g, #[trigger] names[j])
    &&& forall|i: int|
        0 <= i < g.len() ==> (names.contains(#[trigger] g[i].label) <==> marks[i] && !under_way[i])
    &&& forall|i: int| 0 <= i < g.len() && #[trigger] under_way[i] ==> marks[i]
}

/// Whether each edge of the vertex named at `x` leads to an earlier name or
/// to a label from which a walk leads back to that vertex.
spec fn settled(g: Seq<Vertex>, names: Seq<Seq<char>>, x: int) -> bool {
    forall|i: int, k: int|
        0 <= i < g.len() && 0 <= k < g[i].targets.len() && g[i].label == names[x] ==> names.take(
            x,
        ).contains(#[trigger] g[i].targets[k]) || reaches(g, g[i].targets[k], g[i].label)
}

/// Whether every name is settled.
spec fn all_settled(g: Seq<Vertex>, names: Seq<Seq<char>>) -> bool {
    forall|x: int| 0 <= x < names.len() ==> #[trigger] settled(g, names, x)
}

/// A name that is settled stays settled when names are appended.
proof fn lemma_settled_extends(g: Seq<Vertex>, names: Seq<Seq<char>>, more: Seq<Seq<char>>, x: int)
    requires
        0 <= x < names.len(),
        names.len() <= more.len(),
        more.take(names.len() as int) == names,
        settled(g, names, x),
    ensures
        settled(g, more, x),
{
    assert(more.take(x) =~= names.take(x)) by {
        assert forall|y: int| 0 <= y < x implies more[y] == names[y] by {
            assert(more.take(names.len() as int)[y] == more[y]);
        }
    }
    assert(more[x] == more.take(names.len() as int)[x]);
}

/// A walk that leads back along an edge closes a cycle.
pub(super) proof fn lemma_back_edge(g: Seq<Vertex>, a: Seq<char>, b: Seq<char>)
    requires
        arc(g, a, b),
        reaches(g, b, a),
    ensures
        cyclic(g),
{
    lemma_reaches_step(g, b, a, b);
    let p = choose|p: Seq<Seq<char>>| #[trigger] walk(g, p) && p[0] == b && p.last() == a;
    let q = p.push(b);
    assert forall|k: int| 0 <= k < q.len() - 1 implies arc(g, #[trigger] q[k], q[k + 1]) by {
        if k < p.len() - 1 {
            assert(q[k] == p[k] && q[k + 1] == p[k + 1]);
        }
    }
    assert(walk(g, q));
    assert(q.len() >= 2 && q[0] == q.last());
}

/// Names without repeats that hold every label of the graph, and only
/// labels of the graph, are as many as the vertices.
proof fn lemma_all_named(g: Seq<Vertex>, names: Seq<Seq<char>>)
    requires
        forall|a: int, b: int| 0 <= a < b < g.len() ==> (#[trigger] g[a]).label != (#[trigger] g[b]).label,
        names.no_duplicates(),
        forall|j: int| 0 <= j < names.len() ==> has_vertex(g, #[trigger] names[j]),
        forall|i: int| 0 <= i < g.len() ==> names.contains(#[trigger] g[i].label),
    ensures
        names.len() == g.len(),
{
    let own = g.map_values(|v: Vertex| v.label);
    assert(own.no_duplicates()) by {
        assert forall|i: int, j: int| 0 <= i < own.len() && 0 <= j < own.len() && i != j implies own[i]
            != own[j] by {
            if i < j {
                assert(g[i].label != g[j].label);
            } else {
                assert(g[j].label != g[i].label);
            }
        }
    }
    assert(own.to_set() =~= names.to_set()) by {
        assert forall|l: Seq<char>| own.to_set().contains(l) <==> names.to_set().contains(l) by {
            if own.contains(l) {
                let i = choose|i: int| 0 <= i < own.len() && own[i] == l;
                assert(names.contains(g[i].label));
            }
            if names.contains(l) {
                let j = choose|j: int| 0 <= j < names.len() && names[j] == l;
                assert(has_vertex(g, names[j]));
                let i = choose|i: int| 0 <= i < g.len() && #[trigger] g[i].label == l;
                assert(own[i] == l);
            }
        }
    }
    own.unique_seq_to_set();
    names.unique_seq_to_set();
}

impl Graph {
    /// Visits the node at `at` unless it is marked: marks it, visits the far
    /// end of each of its edges, and then puts it on the stack.
    fn topological_sort_(
        &self,
        at: usize,
        marks: &mut Vec<bool>,
        stack: &mut Stack<GraphNode>,
        Ghost(under_way): Ghost<Seq<bool>>,
    )
        requires
            self.wf(),
            closed(self@),
            at < self@.len(),
            finished(self@, old(marks)@, under_way, labels(old(stack)@)),
            all_settled(self@, labels(old(stack)@)),
            forall|i: int|
                0 <= i < self@.len() && #[trigger] under_way[i] ==> reaches(
                    self@,
                    self@[i].label,
                    self@[at as int].label,
                ),
        ensures
            finished(self@, final(marks)@, under_way, labels(final(stack)@)),
            all_settled(self@, labels(final(stack)@)),
            final(marks)@[at as int],
            forall|i: int| 0 <= i < self@.len() && old(marks)@[i] ==> #[trigger] final(marks)@[i],
            final(stack)@.len() >= old(stack)@.len(),
            labels(final(stack)@).take(old(stack)@.len() as int) == labels(old(stack)@),
        decreases self@.len() - count_true(old(marks)@),
    {
        let ghost g = self@;
        let ghost m0 = marks@;
        let ghost s0 = labels(stack@);
        proof {
            assert(s0.take(s0.len() as int) =~= s0);
        }
        if marks[at] {
            return ;
        }
        let ghost busy = under_way.update(at as int, true);
        proof {
            lemma_count_true_set(m0, at as int);
            lemma_count_true_bound(m0.update(at as int, true));
            lemma_count_true_bound(m0);
            lemma_reaches_self(g, g[at as int].label);
            assert(!s0.contains(g[at as int].label));
        }
        marks[at] = true;
        proof {
            assert forall|i: int| 0 <= i < g.len() implies (s0.contains(#[trigger] g[i].label)
                <==> marks@[i] && !busy[i]) by {
                if i != at {
                    assert(s0.contains(g[i].label) <==> m0[i] && !under_way[i]);
                }
            }
        }
        let mut k: usize = 0;
        while k < self.entries[at].neighbours.len()
            invariant
                g == self@,
                self.wf(),
                closed(g),
                at < g.len(),
                m0 == old(marks)@,
                m0.len() == g.len(),
                !m0[at as int],
                !under_way[at as int],
                under_way.len() == g.len(),
                busy == under_way.update(at as int, true),
                k <= self.entries[at as int].neighbours.len(),
                self.entries[at as int].neighbours.len() == g[at as int].targets.len(),
                finished(g, marks@, busy, labels(stack@)),
                all_settled(g, labels(stack@)),
                marks@[at as int],
                forall|i: int| 0 <= i < g.len() && m0[i] ==> #[trigger] marks@[i],
                forall|i: int|
                    0 <= i < g.len() && #[trigger] under_way[i] ==> reaches(
                        g,
                        g[i].label,
                        g[at as int].label,
                    ),
                stack@.len() >= old(stack)@.len(),
                labels(stack@).take(s0.len() as int) == s0,
                s0 == labels(old(stack)@),
                forall|j: int|
                    0 <= j < k ==> labels(stack@).contains(#[trigger] g[at as int].targets[j])
                        || reaches(g, g[at as int].targets[j], g[at as int].label),
            decreases self.entries[at as int].neighbours.len() - k,
        {
            let neighbour = &self.entries[at].neighbours[k];
            proof {
                assert(g[at as int].targets[k as int] == neighbour@);
                lemma_arc(g, at as int, k as int);
                assert(has_vertex(g, g[at as int].targets[k as int]));
            }
            let found = self.position(neighbour.label());
            let j = found.unwrap();
            let ghost m1 = marks@;
            let ghost s1 = labels(stack@);
            proof {
                crate::marks::lemma_count_true_more(m0, m1, at as int);
                lemma_count_true_bound(m1);
                lemma_count_true_bound(m0);
                assert forall|i: int| 0 <= i < g.len() && #[trigger] busy[i] implies reaches(
                    g,
                    g[i].label,
                    g[j as int].label,
                ) by {
                    if i == at {
                        lemma_reaches_self(g, g[at as int].label);
                        lemma_reaches_step(g, g[at as int].label, g[at as int].label, neighbour@);
                    } else {
                        assert(under_way[i]);
                        lemma_reaches_step(g, g[i].label, g[at as int].label, neighbour@);
                    }
                }
            }
            self.topological_sort_(j, marks, stack, Ghost(busy));
            proof {
                let s2 = labels(stack@);
                assert(s2.take(s0.len() as int) =~= s0) by {
                    assert forall|x: int| 0 <= x < s0.len() implies s2[x] == s0[x] by {
                        assert(s2.take(s1.len() as int)[x] == s2[x]);
                        assert(s1.take(s0.len() as int)[x] == s1[x]);
                    }
                }
                assert forall|x: int| 0 <= x < k + 1 implies s2.contains(
                    #[trigger] g[at as int].targets[x],
                ) || reaches(g, g[at as int].targets[x], g[at as int].label) by {
                    let t = g[at as int].targets[x];
                    if x < k {
                        if s1.contains(t) {
                            let y = choose|y: int| 0 <= y < s1.len() && s1[y] == t;
                            assert(s2.take(s1.len() as int)[y] == s2[y]);
                        }
                    } else {
                        assert(marks@[j as int]);
                        if busy[j as int] {
                            if j != at {
                                assert(under_way[j as int]);
                            }
                        } else {
                            assert(s2.contains(g[j as int].label));
                        }
                    }
                }
            }
            k += 1;
        }
        let ghost s3 = labels(stack@);
        stack.push(self.entries[at].node.clone());
        proof {
            let s4 = labels(stack@);
            let me = g[at as int].label;
            assert(s4 =~= s3.push(me));
            assert(s4.take(s3.len() as int) =~= s3);
            assert(s4.take(s0.len() as int) =~= s0) by {
                assert forall|x: int| 0 <= x < s0.len() implies s4[x] == s0[x] by {
                    assert(s3.take(s0.len() as int)[x] == s3[x]);
                }
            }
            assert(!s3.contains(me));
            assert(s4.no_duplicates()) by {
                assert forall|a: int, b: int|
                    0 <= a < s4.len() && 0 <= b < s4.len() && a != b implies s4[a] != s4[b] by {
                    if a < s3.len() && b < s3.len() {
                        assert(s3[a] != s3[b]);
                    } else if a < s3.len() {
                        assert(s3.contains(s3[a]));
                    } else {
                        assert(s3.contains(s3[b]));
                    }
                }
            }
            lemma_vertex_index(g, at as int);
            assert forall|x: int| 0 <= x < s4.len() implies has_vertex(g, #[trigger] s4[x]) by {
                if x < s3.len() {
                    assert(s4[x] == s3[x]);
                }
            }
            assert forall|i: int| 0 <= i < g.len() implies (s4.contains(#[trigger] g[i].label)
                <==> marks@[i] && !under_way[i]) by {
                if i == at {
                    assert(s4[s3.len() as int] == me);
                } else {
                    if i < at {
                        assert(g[i].label != g[at as int].label);
                    } else {
                        assert(g[at as int].label != g[i].label);
                    }
                    if s3.contains(g[i].label) {
                        let y = choose|y: int| 0 <= y < s3.len() && s3[y] == g[i].label;
                        assert(s4[y] == g[i].label);
                    }
                    if s4.contains(g[i].label) {
                        let y = choose|y: int| 0 <= y < s4.len() && s4[y] == g[i].label;
                        assert(s3[y] == g[i].label);
                    }
                }
            }
            assert forall|x: int| 0 <= x < s4.len() implies #[trigger] settled(g, s4, x) by {
                if x < s3.len() {
                    assert(settled(g, s3, x));
                    lemma_settled_extends(g, s3, s4, x);
                } else {
                    assert forall|i: int, k: int|
                        0 <= i < g.len() && 0 <= k < g[i].targets.len() && g[i].label
                            == s4[x] implies s4.take(x).contains(#[trigger] g[i].targets[k])
                        || reaches(g, g[i].targets[k], g[i].label) by {
                        if i < at {
                            assert(g[i].label != g[at as int].label);
                        } else if at < i {
                            assert(g[at as int].label != g[i].label);
                        }
                    }
                }
            }
        }
    }

    /// The labels of all nodes, each once, ordered so that an edge leads
    /// from an earlier label to a later one unless a walk leads back from its
    /// far end to its near end. In a graph without cycles every edge leads
    /// forwards.
    pub fn topological_sort(&self) -> (sorted: Vec<String>)
        requires
            self.wf(),
            closed(self@),
        ensures
            sorted@.len() == self@.len(),
            texts(sorted@).no_duplicates(),
            forall|i: int| 0 <= i < self@.len() ==> texts(sorted@).contains(#[trigger] self@[i].label),
            forall|i: int, k: int|
                0 <= i < self@.len() && 0 <= k < self@[i].targets.len() ==> before(
                    texts(sorted@),
                    self@[i].label,
                    #[trigger] self@[i].targets[k],
                ) || reaches(self@, self@[i].targets[k], self@[i].label),
            !cyclic(self@) ==> forall|i: int, k: int|
                0 <= i < self@.len() && 0 <= k < self@[i].targets.len() ==> before(
                    texts(sorted@),
                    self@[i].label,
                    #[trigger] self@[i].targets[k],
                ),
    {
        let ghost g = self@;
        let mut marks = self.no_marks();
        let mut stack: Stack<GraphNode> = Stack::new();
        let ghost idle = Seq::new(g.len(), |i: int| false);
        let mut i: usize = 0;
        proof {
            assert(labels(stack@) =~= Seq::<Seq<char>>::empty());
        }
        while i < self.entries.len()
            invariant
                g == self@,
                self.wf(),
                closed(g),
                i <= self.entries.len(),
                idle == Seq::new(g.len(), |i: int| false),
                finished(g, marks@, idle, labels(stack@)),
                all_settled(g, labels(stack@)),
                forall|j: int| 0 <= j < i ==> #[trigger] marks@[j],
            decreases self.entries.len() - i,
        {
            self.topological_sort_(i, &mut marks, &mut stack, Ghost(idle));
            i += 1;
        }
        let ghost names = labels(stack@);
        proof {
            assert forall|v: int| 0 <= v < g.len() implies names.contains(#[trigger] g[v].label) by {
                assert(marks@[v] && !idle[v]);
            }
            lemma_all_named(g, names);
        }
        let mut sorted: Vec<String> = Vec::new();
        while !stack.is_empty()
            invariant
                names.len() == g.len(),
                stack@.len() + sorted@.len() == names.len(),
                labels(stack@) == names.take(stack@.len() as int),
                forall|x: int|
                    0 <= x < sorted@.len() ==> (#[trigger] sorted@[x])@ == names[names.len() - 1
                        - x],
            decreases stack@.len(),
        {
            let ghost left = stack@.len();
            let top = stack.pop();
            proof {
                assert(labels(stack@) =~= names.take(left - 1)) by {
                    assert forall|x: int| 0 <= x < left - 1 implies labels(stack@)[x] == names[x] by {
                        assert(names.take(left as int)[x] == names[x]);
                    }
                }
                assert(top->0@ == names.take(left as int)[left - 1]);
            }
            if let Some(node) = top {
                sorted.push(node.label().clone());
            }
        }
        proof {
            let s = texts(sorted@);
            let n = names.len() as int;
            assert(s.len() == n);
            assert forall|x: int| 0 <= x < n implies #[trigger] s[x] == names[n - 1 - x] by {}
            assert(s.no_duplicates()) by {
                assert forall|a: int, b: int| 0 <= a < s.len() && 0 <= b < s.len() && a != b implies s[a]
                    != s[b] by {
                    assert(names[n - 1 - a] != names[n - 1 - b]);
                }
            }
            assert forall|v: int| 0 <= v < g.len() implies s.contains(#[trigger] g[v].label) by {
                let y = choose|y: int| 0 <= y < names.len() && names[y] == g[v].label;
                assert(s[n - 1 - y] == g[v].label);
            }
            assert forall|v: int, k: int|
                0 <= v < g.len() && 0 <= k < g[v].targets.len() implies before(
                s,
                g[v].label,
                #[trigger] g[v].targets[k],
            ) || reaches(g, g[v].targets[k], g[v].label) by {
                let x = choose|x: int| 0 <= x < names.len() && names[x] == g[v].label;
                assert(settled(g, names, x));
                let t = g[v].targets[k];
                if names.take(x).contains(t) {
                    let y = choose|y: int| 0 <= y < names.take(x).len() && names.take(x)[y] == t;
                    assert(names[y] == t);
                    assert(s[n - 1 - x] == g[v].label);
                    assert(s[n - 1 - y] == t);
                }
            }
            if !cyclic(g) {
                assert forall|v: int, k: int|
                    0 <= v < g.len() && 0 <= k < g[v].targets.len() implies before(
                    s,
                    g[v].label,
                    #[trigger] g[v].targets[k],
                ) by {
                    if reaches(g, g[v].targets[k], g[v].label) {
                        lemma_arc(g, v, k);
                        lemma_back_edge(g, g[v].label, g[v].targets[k]);
                    }
                }
            }
        }
        sorted
    }
}

} // verus!
