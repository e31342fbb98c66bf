//! Deciding whether a directed graph has a cycle.

use super::order::lemma_back_edge;
use super::reach::{arc, closed, cyclic, lemma_arc, lemma_reaches_self, lemma_reaches_step, reaches, walk};
use super::{has_vertex, lemma_vertex_index, vertex_index, Graph, Vertex};
use crate::marks::{
    count_true, lemma_count_true_clear, lemma_count_true_grows, lemma_count_true_set,
};
use vstd::prelude::*;

verus! {

/// Whether every vertex is in exactly one of the three groups.
#[verifier::opaque]
spec fn sorted_out(g: Seq<Vertex>, all: Seq<bool>, visiting: Seq<bool>, visited: Seq<bool>) -> bool {
    &&& all.len() == g.len() && visiting.len() == g.len() && visited.len() == g.len()
    &&& forall|i: int|
        0 <= i < g.len() ==> (#[trigger] all[i] || visiting[i] || visited[i]) && !(all[i]
            && visiting[i]) && !(all[i] && visited[i]) && !(visiting[i] && visited[i])
}

/// Whether `l` is the label of a visited vertex that was done before rank `r`.
spec fn done_before(g: Seq<Vertex>, visited: Seq<bool>, fin: Seq<int>, l: Seq<char>, r: int) -> bool {
    exists|j: int| 0 <= j < g.len() && #[trigger] g[j].label == l && visited[j] && fin[j] < r
}

/// Whether every visited vertex has a rank below the number of visited
/// vertices, and each of its edges leads to a visited vertex of lower rank.
#[verifier::opaque]
spec fn ranked(g: Seq<Vertex>, visited: Seq<bool>, fin: Seq<int>) -> bool {
    &&& fin.len() == g.len() && visited.len() == g.len()
    &&& forall|i: int|
        0 <= i < g.len() && #[trigger] visited[i] ==> 0 <= fin[i] < count_true(visited)
    &&& forall|i: int, k: int|
        0 <= i < g.len() && visited[i] && 0 <= k < g[i].targets.len() ==> done_before(
            g,
            visited,
            fin,
            #[trigger] g[i].targets[k],
            fin[i],
        )
}

/// Along a walk through visited vertices the rank falls with every edge.
proof fn lemma_walk_falls(g: Seq<Vertex>, visited: Seq<bool>, fin: Seq<int>, p: Seq<Seq<char>>, m: int)
    requires
        forall|a: int, b: int| 0 <= a < b < g.len() ==> (#[trigger] g[a]).label != (#[trigger] g[b]).label,
        forall|i: int| 0 <= i < g.len() ==> visited[i],
        ranked(g, visited, fin),
        walk(g, p),
        p.len() >= 2,
        0 <= m < p.len(),
    ensures
        has_vertex(g, p[m]),
        has_vertex(g, p[0]),
        fin[vertex_index(g, p[m])] + m <= fin[vertex_index(g, p[0])],
    decreases m,
{
    reveal(ranked);
    assert(arc(g, p[0], p[0int + 1]));
    if m > 0 {
        lemma_walk_falls(g, visited, fin, p, m - 1);
        assert(arc(g, p[m - 1], p[(m - 1) + 1]));
        let (i, k) = choose|i: int, k: int|
            0 <= i < g.len() && 0 <= k < g[i].targets.len() && g[i].label == p[m - 1]
                && #[trigger] g[i].targets[k] == p[m];
        lemma_vertex_index(g, i);
        assert(done_before(g, visited, fin, g[i].targets[k], fin[i]));
        let j = choose|j: int|
            0 <= j < g.len() && #[trigger] g[j].label == p[m] && visited[j] && fin[j] < fin[i];
        lemma_vertex_index(g, j);
    }
}

/// A graph whose vertices are all visited and ranked has no cycle.
proof fn lemma_no_cycle(g: Seq<Vertex>, visited: Seq<bool>, fin: Seq<int>)
    requires
        forall|a: int, b: int| 0 <= a < b < g.len() ==> (#[trigger] g[a]).label != (#[trigger] g[b]).label,
        forall|i: int| 0 <= i < g.len() ==> visited[i],
        ranked(g, visited, fin),
    ensures
        !cyclic(g),
{
    if cyclic(g) {
        let p = choose|p: Seq<Seq<char>>| #[trigger] walk(g, p) && p.len() >= 2 && p[0] == p.last();
        lemma_walk_falls(g, visited, fin, p, p.len() - 1);
    }
}

/// Ranking a vertex whose edges all lead to visited vertices.
proof fn lemma_rank_done(g: Seq<Vertex>, visited: Seq<bool>, fin: Seq<int>, at: int)
    requires
        forall|a: int, b: int| 0 <= a < b < g.len() ==> (#[trigger] g[a]).label != (#[trigger] g[b]).label,
        ranked(g, visited, fin),
        0 <= at < g.len(),
        !visited[at],
        forall|k: int|
            0 <= k < g[at].targets.len() ==> done_before(
                g,
                visited,
                fin,
                #[trigger] g[at].targets[k],
                count_true(visited) as int,
            ),
    ensures
        ranked(g, visited.update(at, true), fin.update(at, count_true(visited) as int)),
{
    reveal(ranked);
    let v1 = visited.update(at, true);
    let f1 = fin.update(at, count_true(visited) as int);
    lemma_count_true_set(visited, at);
    assert forall|i: int, k: int|
        0 <= i < g.len() && v1[i] && 0 <= k < g[i].targets.len() implies done_before(
        g,
        v1,
        f1,
        #[trigger] g[i].targets[k],
        f1[i],
    ) by {
        let r = if i == at {
            count_true(visited) as int
        } else {
            fin[i]
        };
        assert(done_before(g, visited, fin, g[i].targets[k], r));
        let j = choose|j: int|
            0 <= j < g.len() && #[trigger] g[j].label == g[i].targets[k] && visited[j] && fin[j]
                < r;
        assert(v1[j] && f1[j] == fin[j]);
    }
}

/// What the three groups say of one vertex.
proof fn lemma_sorted_out(
    g: Seq<Vertex>,
    all: Seq<bool>,
    visiting: Seq<bool>,
    visited: Seq<bool>,
    i: int,
)
    requires
        sorted_out(g, all, visiting, visited),
        0 <= i < g.len(),
    ensures
        all.len() == g.len() && visiting.len() == g.len() && visited.len() == g.len(),
        all[i] || visiting[i] || visited[i],
        !(all[i] && visiting[i]) && !(all[i] && visited[i]) && !(visiting[i] && visited[i]),
{
    reveal(sorted_out);
}

/// Moving a vertex from the first group to the second.
proof fn lemma_enter(g: Seq<Vertex>, all: Seq<bool>, visiting: Seq<bool>, visited: Seq<bool>, at: int)
    requires
        sorted_out(g, all, visiting, visited),
        0 <= at < g.len(),
        all[at],
    ensures
        sorted_out(g, all.update(at, false), visiting.update(at, true), visited),
        all.len() == g.len() && visiting.len() == g.len() && visited.len() == g.len(),
        !visiting[at] && !visited[at],
{
    reveal(sorted_out);
}

/// Moving a vertex from the second group to the third.
proof fn lemma_leave(g: Seq<Vertex>, all: Seq<bool>, visiting: Seq<bool>, visited: Seq<bool>, at: int)
    requires
        sorted_out(g, all, visiting, visited),
        0 <= at < g.len(),
        visiting[at],
    ensures
        sorted_out(g, all, visiting.update(at, false), visited.update(at, true)),
{
    reveal(sorted_out);
}

/// What the ranks say of lengths and bounds.
proof fn lemma_ranked(g: Seq<Vertex>, visited: Seq<bool>, fin: Seq<int>)
    requires
        ranked(g, visited, fin),
    ensures
        fin.len() == g.len(),
        visited.len() == g.len(),
        forall|i: int|
            0 <= i < g.len() && #[trigger] visited[i] ==> 0 <= fin[i] < count_true(visited),
{
    reveal(ranked);
}

/// Ranks that only gained entries keep what was done before.
proof fn lemma_done_kept(
    g: Seq<Vertex>,
    v0: Seq<bool>,
    f0: Seq<int>,
    v1: Seq<bool>,
    f1: Seq<int>,
    l: Seq<char>,
    r: int,
)
    requires
        v0.len() == g.len(),
        v1.len() == g.len(),
        f0.len() == g.len(),
        f1.len() == g.len(),
        forall|i: int| 0 <= i < g.len() && v0[i] ==> #[trigger] v1[i] && f1[i] == f0[i],
        done_before(g, v0, f0, l, r),
    ensures
        done_before(g, v1, f1, l, r),
{
    let j = choose|j: int| 0 <= j < g.len() && #[trigger] g[j].label == l && v0[j] && f0[j] < r;
    assert(v1[j] && f1[j] == f0[j]);
}

impl Graph {
    /// Follows the edges of the node at `at`, which has not been entered
    /// before, and says whether an edge leads back to a node under visit.
    #[verifier::rlimit(40)]
    fn has_cycle_(
        &self,
        at: usize,
        all: &mut Vec<bool>,
        visiting: &mut Vec<bool>,
        visited: &mut Vec<bool>,
        Ghost(fin): Ghost<Seq<int>>,
    ) -> (r: (bool, Ghost<Seq<int>>))
        requires
            self.wf(),
            closed(self@),
            at < self@.len(),
            old(all)@[at as int],
            sorted_out(self@, old(all)@, old(visiting)@, old(visited)@),
            ranked(self@, old(visited)@, fin),
            forall|i: int|
                0 <= i < self@.len() && #[trigger] old(visiting)@[i] ==> reaches(
                    self@,
                    self@[i].label,
                    self@[at as int].label,
                ),
        ensures
            r.0 ==> cyclic(self@),
            !r.0 ==> {
                &&& sorted_out(self@, final(all)@, final(visiting)@, final(visited)@)
                &&& ranked(self@, final(visited)@, r.1@)
                &&& final(visiting)@ == old(visiting)@
                &&& final(visited)@[at as int]
                &&& forall|i: int|
                    0 <= i < self@.len() && old(visited)@[i] ==> #[trigger] final(visited)@[i]
                        && r.1@[i] == fin[i]
                &&& forall|i: int| 0 <= i < self@.len() && #[trigger] final(all)@[i] ==> old(all)@[i]
            },
        decreases count_true(old(all)@),
    {
        let ghost g = self@;
        let ghost a0 = all@;
        let ghost g0 = visiting@;
        let ghost b0 = visited@;
        proof {
            lemma_enter(g, a0, g0, b0, at as int);
        }
        all[at] = false;
        visiting[at] = true;
        let ghost busy = visiting@;
        let ghost mut rank = fin;
        let mut k: usize = 0;
        while k < self.entries[at].neighbours.len()
            invariant
                g == self@,
                self.wf(),
                closed(g),
                at < g.len(),
                a0 == old(all)@,
                a0.len() == g.len(),
                all@.len() == g.len(),
                visited@.len() == g.len(),
                a0[at as int],
                b0 == old(visited)@,
                b0.len() == g.len(),
                !b0[at as int],
                g0 == old(visiting)@,
                g0.len() == g.len(),
                busy == g0.update(at as int, true),
                visiting@ == busy,
                k <= self.entries[at as int].neighbours.len(),
                self.entries[at as int].neighbours.len() == g[at as int].targets.len(),
                sorted_out(g, all@, visiting@, visited@),
                ranked(g, visited@, rank),
                !all@[at as int],
                forall|i: int| 0 <= i < g.len() && #[trigger] all@[i] ==> a0[i],
                forall|i: int| 0 <= i < g.len() && b0[i] ==> #[trigger] visited@[i] && rank[i] == fin[i],
                forall|i: int|
                    0 <= i < g.len() && #[trigger] g0[i] ==> reaches(
                        g,
                        g[i].label,
                        g[at as int].label,
                    ),
                forall|j: int|
                    0 <= j < k ==> done_before(
                        g,
                        visited@,
                        rank,
                        #[trigger] g[at as int].targets[j],
                        count_true(visited@) as int,
                    ),
            decreases self.entries[at as int].neighbours.len() - k,
        {
            let neighbour = &self.entries[at].neighbours[k];
            proof {
                assert(g[at as int].targets[k as int] == neighbour@);
                lemma_arc(g, at as int, k as int);
                assert(has_vertex(g, g[at as int].targets[k as int]));
                lemma_reaches_self(g, g[at as int].label);
            }
            let found = self.position(neighbour.label());
            let j = found.unwrap();
            let ghost v1 = visited@;
            let ghost r1 = rank;
            proof {
                lemma_sorted_out(g, all@, visiting@, visited@, j as int);
                lemma_ranked(g, v1, r1);
            }
            if !visited[j] {
                if visiting[j] {
                    proof {
                        if j != at {
                            assert(g0[j as int]);
                        }
                        lemma_back_edge(g, g[at as int].label, g[j as int].label);
                    }
                    return (true, Ghost(rank));
                }
                proof {
                    lemma_count_true_clear(a0, at as int);
                    lemma_count_true_grows(all@, a0.update(at as int, false));
                    assert forall|i: int| 0 <= i < g.len() && #[trigger] busy[i] implies reaches(
                        g,
                        g[i].label,
                        g[j as int].label,
                    ) by {
                        if i != at {
                            assert(g0[i]);
                        }
                        lemma_reaches_step(g, g[i].label, g[at as int].label, neighbour@);
                    }
                }
                let below = self.has_cycle_(j, all, visiting, visited, Ghost(rank));
                if below.0 {
                    return (true, below.1);
                }
                proof {
                    rank = below.1@;
                    lemma_sorted_out(g, all@, visiting@, visited@, j as int);
                    assert forall|i: int| 0 <= i < g.len() && b0[i] implies #[trigger] visited@[i]
                        && rank[i] == fin[i] by {
                        assert(v1[i] && r1[i] == fin[i]);
                    }
                    assert forall|i: int| 0 <= i < g.len() && #[trigger] all@[i] implies a0[i] by {}
                }
            }
            proof {
                lemma_ranked(g, visited@, rank);
                lemma_count_true_grows(v1, visited@);
                assert forall|x: int| 0 <= x < k + 1 implies done_before(
                    g,
                    visited@,
                    rank,
                    #[trigger] g[at as int].targets[x],
                    count_true(visited@) as int,
                ) by {
                    if x < k {
                        lemma_done_kept(
                            g,
                            v1,
                            r1,
                            visited@,
                            rank,
                            g[at as int].targets[x],
                            count_true(v1) as int,
                        );
                        let w = choose|w: int|
                            0 <= w < g.len() && #[trigger] g[w].label == g[at as int].targets[x]
                                && visited@[w] && rank[w] < count_true(v1);
                        assert(rank[w] < count_true(visited@));
                    } else {
                        assert(g[j as int].label == g[at as int].targets[x]);
                        assert(visited@[j as int]);
                    }
                }
            }
            k += 1;
        }
        let ghost v2 = visited@;
        let ghost r2 = rank;
        proof {
            assert(forall|i: int| 0 <= i < g.len() && b0[i] ==> #[trigger] v2[i] && r2[i] == fin[i]);
            lemma_ranked(g, v2, r2);
            lemma_sorted_out(g, all@, visiting@, visited@, at as int);
            lemma_leave(g, all@, visiting@, visited@, at as int);
            lemma_rank_done(g, v2, r2, at as int);
            rank = r2.update(at as int, count_true(v2) as int);
        }
        visiting[at] = false;
        visited[at] = true;
        proof {
            assert(visiting@ =~= g0);
            assert(visited@ == v2.update(at as int, true));
            assert forall|i: int| 0 <= i < g.len() && b0[i] implies #[trigger] visited@[i]
                && rank[i] == fin[i] by {
                assert(i != at);
                assert(v2[i]);
                assert(r2[i] == fin[i]);
            }
        }
        (false, Ghost(rank))
    }

    /// Whether some walk of at least one edge through the graph ends where it
    /// began.
    pub fn has_cycle(&self) -> (r: bool)
        requires
            self.wf(),
            closed(self@),
        ensures
            r == cyclic(self@),
    {
        let ghost g = self@;
        let mut all: Vec<bool> = Vec::new();
        let mut visiting = self.no_marks();
        let mut visited = self.no_marks();
        let mut i: usize = 0;
        while i < self.entries.len()
            invariant
                i <= self.entries.len(),
                all@.len() == i,
                forall|j: int| 0 <= j < i ==> #[trigger] all@[j],
            decreases self.entries.len() - i,
        {
            all.push(true);
            i += 1;
        }
        let ghost mut rank: Seq<int> = Seq::new(g.len(), |i: int| 0int);
        let mut i: usize = 0;
        proof {
            reveal(sorted_out);
            reveal(ranked);
        }
        while i < self.entries.len()
            invariant
                g == self@,
                self.wf(),
                closed(g),
                i <= self.entries.len(),
                sorted_out(g, all@, visiting@, visited@),
                ranked(g, visited@, rank),
                all@.len() == g.len(),
                visiting@.len() == g.len(),
                forall|j: int| 0 <= j < g.len() ==> !(#[trigger] visiting@[j]),
                forall|j: int| 0 <= j < i ==> !(#[trigger] all@[j]),
            decreases self.entries.len() - i,
        {
            proof {
                lemma_sorted_out(g, all@, visiting@, visited@, i as int);
            }
            if all[i] {
                let found = self.has_cycle_(i, &mut all, &mut visiting, &mut visited, Ghost(rank));
                if found.0 {
                    return true;
                }
                proof {
                    rank = found.1@;
                    lemma_sorted_out(g, all@, visiting@, visited@, i as int);
                }
            }
            i += 1;
        }
        proof {
            assert forall|j: int| 0 <= j < g.len() implies visited@[j] by {
                lemma_sorted_out(g, all@, visiting@, visited@, j);
                assert(!all@[j] && !visiting@[j]);
            }
            lemma_no_cycle(g, visited@, rank);
        }
        false
    }
}

} // verus!
