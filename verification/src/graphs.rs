//! A stack and a directed graph stored as adjacency lists.

use vstd::prelude::*;

mod cycle;
mod order;
mod reach;
mod traverse;

pub use order::before;
pub use reach::{
    arc, closed, cyclic, explored, lemma_closed_reaches, lemma_closed_walk, marked, reaches, walk,
};
pub use traverse::{sweep_queue, sweep_stack, unseen, visit, visit_edges};

verus! {

/// A last-in, first-out stack; its view is the sequence of elements, bottom first.
#[derive(Debug)]
pub struct Stack<T> {
    elements: Vec<T>,
}

impl<T> View for Stack<T> {
    type V = Seq<T>;

    closed spec fn view(&self) -> Seq<T> {
        self.elements@
    }
}

impl<T> Stack<T> {
    /// A stack without elements.
    pub fn new() -> (s: Self)
        ensures
            s@ == Seq::<T>::empty(),
    {
        Self { elements: Vec::new() }
    }

    /// Puts an element on top.
    pub fn push(&mut self, item: T)
        ensures
            final(self)@ == old(self)@.push(item),
    {
        self.elements.push(item);
    }

    /// Takes the top element off, if there is one.
    pub fn pop(&mut self) -> (top: Option<T>)
        ensures
            old(self)@.len() == 0 ==> top is None && final(self)@ == old(self)@,
            old(self)@.len() > 0 ==> top == Some(old(self)@.last()) && final(self)@ == old(
                self,
            )@.drop_last(),
    {
        self.elements.pop()
    }

    /// The top element, if there is one.
    pub fn peek(&self) -> (top: Option<&T>)
        ensures
            self@.len() == 0 ==> top is None,
            self@.len() > 0 ==> top == Some(&self@.last()),
    {
        self.elements.last()
    }

    /// Whether the stack has no elements.
    pub fn is_empty(&self) -> (empty: bool)
        ensures
            empty == (self@.len() == 0),
    {
        self.elements.is_empty()
    }

    /// The elements of the stack as a list, bottom first.
    pub fn into_vec(self) -> (v: Vec<T>)
        ensures
            v@ == self@,
    {
        self.elements
    }

    /// A stack of the elements of a list, the last of them on top.
    pub fn from_vec(v: Vec<T>) -> (s: Self)
        ensures
            s@ == v@,
    {
        Self { elements: v }
    }
}

/// A node of a directed graph; its view is its label.
#[derive(Debug)]
pub struct GraphNode {
    label: String,
}

impl View for GraphNode {
    type V = Seq<char>;

    closed spec fn view(&self) -> Seq<char> {
        self.label@
    }
}

impl Clone for GraphNode {
    fn clone(&self) -> (r: Self)
        ensures
            r@ == self@,
    {
        GraphNode { label: self.label.clone() }
    }
}

impl PartialEq for GraphNode {
    fn eq(&self, other: &Self) -> (r: bool) {
        self.label == other.label
    }
}

impl Eq for GraphNode {

}

impl vstd::std_specs::cmp::PartialEqSpecImpl for GraphNode {
    open spec fn obeys_eq_spec() -> bool {
        true
    }

    open spec fn eq_spec(&self, other: &Self) -> bool {
        self@ == other@
    }
}

impl GraphNode {
    /// A node with the given label.
    pub fn new(label: String) -> (n: Self)
        ensures
            n@ == label@,
    {
        Self { label }
    }

    /// The node's label.
    pub fn label(&self) -> (l: &String)
        ensures
            l@ == self@,
    {
        &self.label
    }
}

/// The labels of a list of nodes.
pub open spec fn labels(nodes: Seq<GraphNode>) -> Seq<Seq<char>> {
    nodes.map_values(|n: GraphNode| n@)
}

/// The mathematical value of one node of a graph: its label and the labels
/// its edges lead to, oldest edge first.
pub struct Vertex {
    pub label: Seq<char>,
    pub targets: Seq<Seq<char>>,
}

/// Whether some vertex of `g` carries the label `l`.
pub open spec fn has_vertex(g: Seq<Vertex>, l: Seq<char>) -> bool {
    exists|i: int| 0 <= i < g.len() && #[trigger] g[i].label == l
}

/// Where the vertex labelled `l` stands in `g`; meaningful when `has_vertex(g, l)`.
pub open spec fn vertex_index(g: Seq<Vertex>, l: Seq<char>) -> int {
    choose|i: int| 0 <= i < g.len() && #[trigger] g[i].label == l
}

/// Whether `i` is where `l` first occurs in `s`, or the length of `s` where
/// it does not occur.
pub open spec fn is_first_at(s: Seq<Seq<char>>, l: Seq<char>, i: int) -> bool {
    &&& 0 <= i <= s.len()
    &&& forall|j: int| 0 <= j < i ==> #[trigger] s[j] != l
    &&& i < s.len() ==> s[i] == l
}

/// Where `l` first occurs in `s`, or the length of `s` where it does not occur.
pub open spec fn first_at(s: Seq<Seq<char>>, l: Seq<char>) -> int {
    choose|i: int| is_first_at(s, l, i)
}

/// `s` without the first occurrence of `l`.
pub open spec fn without_first(s: Seq<Seq<char>>, l: Seq<char>) -> Seq<Seq<char>> {
    if first_at(s, l) < s.len() {
        s.remove(first_at(s, l))
    } else {
        s
    }
}

/// Pins `first_at` down from what a scan of `s` has found.
pub proof fn lemma_first_at(s: Seq<Seq<char>>, l: Seq<char>, i: int)
    requires
        is_first_at(s, l, i),
    ensures
        first_at(s, l) == i,
{
    let c = first_at(s, l);
    assert(is_first_at(s, l, c));
    if c < i {
        assert(s[c] != l);
    } else if i < c {
        assert(s[i] != l);
    }
}

/// The vertices of `g` that have edges, in order.
pub open spec fn connected_only(g: Seq<Vertex>) -> Seq<Vertex>
    decreases g.len(),
{
    if g.len() == 0 {
        Seq::empty()
    } else if g.last().targets.len() > 0 {
        connected_only(g.drop_last()).push(g.last())
    } else {
        connected_only(g.drop_last())
    }
}

/// The vertices that a list of labels with their target labels stands for.
pub open spec fn listed(pairs: Seq<(String, Vec<String>)>) -> Seq<Vertex> {
    pairs.map_values(
        |p: (String, Vec<String>)| Vertex { label: p.0@, targets: crate::text::texts(p.1@) },
    )
}

/// One node of a graph with the nodes its edges lead to.
#[derive(Debug)]
struct Entry {
    node: GraphNode,
    neighbours: Vec<GraphNode>,
}

impl View for Entry {
    type V = Vertex;

    closed spec fn view(&self) -> Vertex {
        Vertex { label: self.node@, targets: labels(self.neighbours@) }
    }
}

/// A directed graph: its nodes in the order they were added, each with the
/// nodes its edges lead to.
#[derive(Debug)]
pub struct Graph {
    entries: Vec<Entry>,
}

impl View for Graph {
    type V = Seq<Vertex>;

    closed spec fn view(&self) -> Seq<Vertex> {
        self.entries@.map_values(|e: Entry| e@)
    }
}

/// Where `node` first stands in `list`, if it does.
fn find_node(list: &Vec<GraphNode>, node: &GraphNode) -> (r: Option<usize>)
    ensures
        match r {
            Some(i) => i < list@.len() && first_at(labels(list@), node@) == i,
            None => first_at(labels(list@), node@) == list@.len(),
        },
{
    let mut i: usize = 0;
    while i < list.len()
        invariant
            i <= list.len(),
            forall|j: int| 0 <= j < i ==> #[trigger] labels(list@)[j] != node@,
        decreases list.len() - i,
    {
        if list[i].label == node.label {
            proof {
                lemma_first_at(labels(list@), node@, i as int);
            }
            return Some(i);
        }
        i += 1;
    }
    proof {
        lemma_first_at(labels(list@), node@, i as int);
    }
    None
}

impl Graph {
    /// No two nodes share a label.
    pub open spec fn wf(&self) -> bool {
        forall|i: int, j: int|
            0 <= i < j < self@.len() ==> (#[trigger] self@[i]).label != (#[trigger] self@[j]).label
    }

    /// A graph without nodes.
    pub fn new() -> (g: Self)
        ensures
            g@.len() == 0,
            g.wf(),
            closed(g@),
    {
        Self { entries: Vec::new() }
    }

    /// Where the node with the given label stands, if there is one.
    pub fn position(&self, label: &String) -> (r: Option<usize>)
        ensures
            match r {
                Some(i) => i < self@.len() && self@[i as int].label == label@,
                None => !has_vertex(self@, label@),
            },
    {
        let mut i: usize = 0;
        while i < self.entries.len()
            invariant
                i <= self.entries.len(),
                forall|j: int| 0 <= j < i ==> (#[trigger] self@[j]).label != label@,
            decreases self.entries.len() - i,
        {
            if self.entries[i].node.label == *label {
                return Some(i);
            }
            i += 1;
        }
        None
    }

    /// Adds a node without edges unless the label is already taken.
    pub fn add_node(&mut self, label: String)
        requires
            old(self).wf(),
        ensures
            final(self).wf(),
            has_vertex(old(self)@, label@) ==> final(self)@ == old(self)@,
            !has_vertex(old(self)@, label@) ==> final(self)@ == old(self)@.push(
                Vertex { label: label@, targets: Seq::empty() },
            ),
            closed(old(self)@) ==> closed(final(self)@),
    {
        if self.position(&label).is_none() {
            let entry = Entry { node: GraphNode::new(label), neighbours: Vec::new() };
            proof {
                if closed(self@) {
                    reach::lemma_closed_push(self@, label@);
                }
                assert(entry@.targets =~= Seq::empty());
                assert(self.entries@.push(entry).map_values(|e: Entry| e@) =~= self@.push(entry@));
            }
            self.entries.push(entry);
        }
    }

    /// Removes the node with the given label, its edges, and from every other
    /// node the oldest edge that leads to it. Nothing changes where no node
    /// has that label.
    pub fn remove_node(&mut self, label: String)
        requires
            old(self).wf(),
        ensures
            final(self).wf(),
            !has_vertex(old(self)@, label@) ==> final(self)@ == old(self)@,
            has_vertex(old(self)@, label@) ==> final(self)@ == old(self)@.remove(
                vertex_index(old(self)@, label@),
            ).map_values(
                |v: Vertex| Vertex { label: v.label, targets: without_first(v.targets, label@) },
            ),
            closed(old(self)@) && (forall|i: int|
                0 <= i < old(self)@.len() && old(self)@[i].label != label@ ==> !without_first(
                    (#[trigger] old(self)@[i]).targets,
                    label@,
                ).contains(label@)) ==> closed(final(self)@),
    {
        let at = match self.position(&label) {
            Some(at) => at,
            None => {
                return ;
            },
        };
        let node = self.entries[at].node.clone();
        let ghost g0 = self@;
        proof {
            lemma_vertex_index(g0, at as int);
        }
        self.entries.remove(at);
        proof {
            assert(self@ =~= g0.remove(at as int));
        }
        let ghost g1 = self@;
        let mut i: usize = 0;
        while i < self.entries.len()
            invariant
                i <= self.entries.len(),
                node@ == label@,
                self@.len() == g1.len(),
                forall|j: int| 0 <= j < self@.len() ==> (#[trigger] self@[j]).label == g1[j].label,
                forall|j: int|
                    0 <= j < i ==> (#[trigger] self@[j]).targets == without_first(
                        g1[j].targets,
                        label@,
                    ),
                forall|j: int| i <= j < self@.len() ==> (#[trigger] self@[j]).targets == g1[j].targets,
            decreases self.entries.len() - i,
        {
            let found = find_node(&self.entries[i].neighbours, &node);
            let ghost before = self@;
            if let Some(k) = found {
                self.entries[i].neighbours.remove(k);
                proof {
                    assert(self@[i as int].targets =~= before[i as int].targets.remove(k as int));
                }
            }
            proof {
                assert forall|j: int| 0 <= j < self@.len() && j != i implies #[trigger] self@[j]
                    == before[j] by {}
            }
            i += 1;
        }
        proof {
            assert(self@ =~= g1.map_values(
                |v: Vertex| Vertex { label: v.label, targets: without_first(v.targets, label@) },
            ));
            if closed(g0) && (forall|i: int|
                0 <= i < g0.len() && g0[i].label != label@ ==> !without_first(
                    (#[trigger] g0[i]).targets,
                    label@,
                ).contains(label@)) {
                assert forall|i: int| 0 <= i < g0.len() && i != at implies !without_first(
                    (#[trigger] g0[i]).targets,
                    label@,
                ).contains(label@) by {
                    if i < at {
                        assert(g0[i].label != g0[at as int].label);
                    } else {
                        assert(g0[at as int].label != g0[i].label);
                    }
                }
                reach::lemma_closed_remove(g0, at as int, label@);
            }
        }
    }

    /// Adds an edge from `from` to `to`. Nothing changes unless both are nodes
    /// of the graph.
    pub fn add_edge(&mut self, from: String, to: String)
        requires
            old(self).wf(),
        ensures
            final(self).wf(),
            !has_vertex(old(self)@, from@) || !has_vertex(old(self)@, to@) ==> final(self)@
                == old(self)@,
            has_vertex(old(self)@, from@) && has_vertex(old(self)@, to@) ==> final(self)@ == old(
                self,
            )@.update(
                vertex_index(old(self)@, from@),
                Vertex {
                    label: from@,
                    targets: old(self)@[vertex_index(old(self)@, from@)].targets.push(to@),
                },
            ),
            closed(old(self)@) ==> closed(final(self)@),
    {
        let j = match self.position(&to) {
            Some(j) => j,
            None => {
                return ;
            },
        };
        let to_node = self.entries[j].node.clone();
        let i = match self.position(&from) {
            Some(i) => i,
            None => {
                return ;
            },
        };
        let ghost g0 = self@;
        proof {
            lemma_vertex_index(g0, i as int);
        }
        proof {
            if closed(g0) {
                assert(g0[j as int].label == to@);
                reach::lemma_closed_add(g0, i as int, to@);
            }
        }
        self.entries[i].neighbours.push(to_node);
        proof {
            assert(self@[i as int].targets =~= g0[i as int].targets.push(to@));
            assert(self@ =~= g0.update(
                i as int,
                Vertex { label: from@, targets: g0[i as int].targets.push(to@) },
            ));
        }
    }

    /// Removes the oldest edge from `from` to `to`. Nothing changes unless
    /// both are nodes of the graph.
    pub fn remove_edge(&mut self, from: String, to: String)
        requires
            old(self).wf(),
        ensures
            final(self).wf(),
            !has_vertex(old(self)@, from@) || !has_vertex(old(self)@, to@) ==> final(self)@
                == old(self)@,
            has_vertex(old(self)@, from@) && has_vertex(old(self)@, to@) ==> final(self)@ == old(
                self,
            )@.update(
                vertex_index(old(self)@, from@),
                Vertex {
                    label: from@,
                    targets: without_first(
                        old(self)@[vertex_index(old(self)@, from@)].targets,
                        to@,
                    ),
                },
            ),
            closed(old(self)@) ==> closed(final(self)@),
    {
        let j = match self.position(&to) {
            Some(j) => j,
            None => {
                return ;
            },
        };
        let to_node = self.entries[j].node.clone();
        let i = match self.position(&from) {
            Some(i) => i,
            None => {
                return ;
            },
        };
        let ghost g0 = self@;
        proof {
            lemma_vertex_index(g0, i as int);
        }
        proof {
            if closed(g0) {
                reach::lemma_closed_drop(g0, i as int, to@);
            }
        }
        let found = find_node(&self.entries[i].neighbours, &to_node);
        if let Some(k) = found {
            self.entries[i].neighbours.remove(k);
            proof {
                assert(self@[i as int].targets =~= g0[i as int].targets.remove(k as int));
            }
        }
        proof {
            assert(self@ =~= g0.update(
                i as int,
                Vertex { label: from@, targets: without_first(g0[i as int].targets, to@) },
            ));
        }
    }

    /// Whether every edge leads to a node of the graph.
    pub fn is_closed(&self) -> (r: bool)
        ensures
            r == closed(self@),
    {
        let mut i: usize = 0;
        while i < self.entries.len()
            invariant
                i <= self.entries.len(),
                forall|a: int, k: int|
                    0 <= a < i && 0 <= k < self@[a].targets.len() ==> has_vertex(
                        self@,
                        #[trigger] self@[a].targets[k],
                    ),
            decreases self.entries.len() - i,
        {
            let list = &self.entries[i].neighbours;
            let mut k: usize = 0;
            while k < list.len()
                invariant
                    i < self.entries.len(),
                    list == &self.entries[i as int].neighbours,
                    k <= list.len(),
                    list@.len() == self@[i as int].targets.len(),
                    forall|j: int|
                        0 <= j < k ==> has_vertex(self@, #[trigger] self@[i as int].targets[j]),
                decreases list.len() - k,
            {
                proof {
                    assert(self@[i as int].targets[k as int] == list@[k as int]@);
                }
                if self.position(list[k].label()).is_none() {
                    return false;
                }
                k += 1;
            }
            i += 1;
        }
        true
    }

    /// A copy of the nodes that the edges of `node` lead to, oldest edge
    /// first; `None` where the graph has no such node.
    pub fn get_adjacent_nodes(&self, node: &GraphNode) -> (r: Option<Vec<GraphNode>>)
        ensures
            has_vertex(self@, node@) == r is Some,
            r is Some ==> exists|i: int|
                0 <= i < self@.len() && #[trigger] self@[i].label == node@ && labels(r->0@)
                    == self@[i].targets,
    {
        match self.position(&node.label) {
            Some(i) => {
                let list = &self.entries[i].neighbours;
                let mut copy: Vec<GraphNode> = Vec::new();
                let mut k: usize = 0;
                while k < list.len()
                    invariant
                        k <= list.len(),
                        copy@.len() == k,
                        forall|j: int| 0 <= j < k ==> (#[trigger] copy@[j])@ == list@[j]@,
                    decreases list.len() - k,
                {
                    copy.push(list[k].clone());
                    k += 1;
                }
                proof {
                    assert(labels(copy@) =~= self@[i as int].targets);
                }
                Some(copy)
            },
            None => None,
        }
    }

    /// Each node that has edges, with the labels its edges lead to, in the
    /// order the nodes were added.
    pub fn connections(&self) -> (r: Vec<(String, Vec<String>)>)
        ensures
            listed(r@) == connected_only(self@),
    {
        let mut r: Vec<(String, Vec<String>)> = Vec::new();
        let mut i: usize = 0;
        proof {
            assert(listed(r@) =~= connected_only(self@.take(0)));
        }
        while i < self.entries.len()
            invariant
                i <= self.entries.len(),
                listed(r@) == connected_only(self@.take(i as int)),
            decreases self.entries.len() - i,
        {
            let list = &self.entries[i].neighbours;
            proof {
                assert(self@.take(i + 1).drop_last() =~= self@.take(i as int));
                assert(self@.take(i + 1).last() == self@[i as int]);
                assert(self@[i as int].targets.len() == list@.len());
            }
            if list.len() > 0 {
                let mut names: Vec<String> = Vec::new();
                let mut k: usize = 0;
                while k < list.len()
                    invariant
                        k <= list.len(),
                        names@.len() == k,
                        forall|j: int| 0 <= j < k ==> (#[trigger] names@[j])@ == list@[j]@,
                    decreases list.len() - k,
                {
                    names.push(list[k].label.clone());
                    k += 1;
                }
                proof {
                    assert(crate::text::texts(names@) =~= self@[i as int].targets);
                }
                let ghost before = r@;
                let pair = (self.entries[i].node.label.clone(), names);
                r.push(pair);
                proof {
                    assert(listed(r@) =~= listed(before).push(self@[i as int]));
                }
            }
            i += 1;
        }
        proof {
            assert(self@.take(self.entries.len() as int) =~= self@);
        }
        r
    }
}

/// Labels are unique in a graph without repeated labels.
pub proof fn lemma_vertex_index(g: Seq<Vertex>, i: int)
    requires
        0 <= i < g.len(),
        forall|a: int, b: int| 0 <= a < b < g.len() ==> (#[trigger] g[a]).label != (#[trigger] g[b]).label,
    ensures
        vertex_index(g, g[i].label) == i,
        has_vertex(g, g[i].label),
{
    let l = g[i].label;
    assert(g[i].label == l);
    let c = vertex_index(g, l);
    if c < i {
        assert(g[c].label != g[i].label);
    } else if i < c {
        assert(g[i].label != g[c].label);
    }
}

} // verus!
