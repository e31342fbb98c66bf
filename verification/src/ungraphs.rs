//! An undirected weighted graph whose edges remember both end nodes as they
//! were when the edge was added, with shortest paths and spanning trees.

use crate::text::{decimal, decimal_string, join_strings, joined, texts};
use vstd::prelude::*;
use vstd::string::StringExecFns;

mod cycles;
mod least;
mod lightest;
mod shortest;
mod sorted_queue;
mod spanning;

pub use cycles::{adjacent, has_ring, is_ring, leads, symmetric, twice};
pub use least::{edge_of_weight, hanging_weights, hung_below, lemma_tree_is_least, mirrored, total};
pub use lightest::{is_walk, joined_by_walk, lightest, nonnegative, walk_labels, walk_weight};
pub use shortest::linked;
pub use sorted_queue::{ascending, PriorityQueue};
pub use spanning::{
    connected, drawn_from, edge_count, hangs, hung, labels_within, light_cut, stands_before,
};

verus! {

/// A route through a graph: the labels of its nodes, first node first.
#[derive(Debug)]
pub struct Path {
    nodes: Vec<String>,
}

impl View for Path {
    type V = Seq<Seq<char>>;

    closed spec fn view(&self) -> Seq<Seq<char>> {
        texts(self.nodes@)
    }
}

impl Path {
    /// A route without nodes.
    pub fn new() -> (p: Self)
        ensures
            p@ == Seq::<Seq<char>>::empty(),
    {
        let p = Self { nodes: Vec::new() };
        assert(p@ =~= Seq::<Seq<char>>::empty());
        p
    }

    /// Appends a label to the route.
    pub fn add_node(&mut self, node: String)
        ensures
            final(self)@ == old(self)@.push(node@),
    {
        self.nodes.push(node);
        assert(self@ =~= old(self)@.push(node@));
    }

    /// The labels of the route, first node first.
    pub fn labels(&self) -> (l: &Vec<String>)
        ensures
            texts(l@) == self@,
    {
        &self.nodes
    }

    /// The route as text: its labels with an arrow between each two.
    pub fn to_string(&self) -> (r: String)
        ensures
            r@ == joined(self@, " -> "@),
    {
        join_strings(&self.nodes, " -> ")
    }
}

/// The mathematical value of a [`GraphNode`].
pub struct NodeModel {
    pub label: Seq<char>,
    pub edges: Seq<EdgeModel>,
}

/// The mathematical value of an [`Edge`].
pub struct EdgeModel {
    pub from: NodeModel,
    pub to: NodeModel,
    pub weight: i32,
}

/// A labelled node with the edges that leave it, oldest first.
#[derive(Debug)]
pub struct GraphNode {
    label: String,
    edges: Vec<Edge>,
}

/// A weighted edge. Both ends are copies of the nodes as they were just
/// before the edge was added.
#[derive(Debug)]
pub struct Edge {
    from: GraphNode,
    to: GraphNode,
    weight: i32,
}

/// The value of a node.
pub closed spec fn node_model(n: GraphNode) -> NodeModel
    decreases n, 1int,
{
    NodeModel { label: n.label@, edges: edges_model(n.edges@) }
}

/// The value of an edge.
pub closed spec fn edge_model(e: Edge) -> EdgeModel
    decreases e, 1int,
{
    EdgeModel { from: node_model(e.from), to: node_model(e.to), weight: e.weight }
}

/// The values of a run of edges, in order.
pub open spec fn edges_model(edges: Seq<Edge>) -> Seq<EdgeModel>
    decreases edges, 0int,
{
    if edges.len() == 0 {
        Seq::empty()
    } else {
        edges_model(edges.drop_last()).push(edge_model(edges.last()))
    }
}

impl View for GraphNode {
    type V = NodeModel;

    open spec fn view(&self) -> NodeModel {
        node_model(*self)
    }
}

impl View for Edge {
    type V = EdgeModel;

    open spec fn view(&self) -> EdgeModel {
        edge_model(*self)
    }
}

/// The value of a run of edges has one entry for each edge, in the same order.
pub proof fn lemma_edges_model(edges: Seq<Edge>)
    ensures
        edges_model(edges).len() == edges.len(),
        forall|i: int| 0 <= i < edges.len() ==> #[trigger] edges_model(edges)[i] == edges[i]@,
    decreases edges.len(),
{
    if edges.len() > 0 {
        lemma_edges_model(edges.drop_last());
    }
}

/// Appending an edge appends its value.
pub proof fn lemma_edges_model_push(edges: Seq<Edge>, e: Edge)
    ensures
        edges_model(edges.push(e)) == edges_model(edges).push(e@),
{
    assert(edges.push(e).drop_last() =~= edges);
}

impl Clone for GraphNode {
    fn clone(&self) -> (r: Self)
        ensures
            r@ == self@,
        decreases self,
    {
        let mut edges: Vec<Edge> = Vec::new();
        let mut i: usize = 0;
        while i < self.edges.len()
            invariant
                i <= self.edges.len(),
                edges@.len() == i,
                forall|j: int| 0 <= j < i ==> (#[trigger] edges@[j])@ == self.edges@[j]@,
            decreases self.edges.len() - i,
        {
            let e = self.edges[i].clone();
            edges.push(e);
            i += 1;
        }
        proof {
            lemma_edges_model(edges@);
            lemma_edges_model(self.edges@);
            assert(edges_model(edges@) =~= edges_model(self.edges@));
        }
        GraphNode { label: self.label.clone(), edges }
    }
}

impl Clone for Edge {
    fn clone(&self) -> (r: Self)
        ensures
            r@ == self@,
        decreases self,
    {
        Edge { from: self.from.clone(), to: self.to.clone(), weight: self.weight }
    }
}

impl PartialEq for GraphNode {
    fn eq(&self, other: &Self) -> (r: bool) {
        self.same(other)
    }
}

impl Eq for GraphNode {

}

impl vstd::std_specs::cmp::PartialEqSpecImpl for GraphNode {
    open spec fn obeys_eq_spec() -> bool {
        true
    }

    open spec fn eq_spec(&self, other: &Self) -> bool {
        self@ == other@
    }
}

impl PartialEq for Edge {
    fn eq(&self, other: &Self) -> (r: bool) {
        self.same(other)
    }
}

impl Eq for Edge {

}

impl vstd::std_specs::cmp::PartialEqSpecImpl for Edge {
    open spec fn obeys_eq_spec() -> bool {
        true
    }

    open spec fn eq_spec(&self, other: &Self) -> bool {
        self@ == other@
    }
}

impl GraphNode {
    /// A node with the given label and no edges.
    pub fn new(label: String) -> (n: Self)
        ensures
            n@.label == label@,
            n@.edges.len() == 0,
    {
        Self { label, edges: Vec::new() }
    }

    /// The node's label.
    pub fn label(&self) -> (l: &String)
        ensures
            l@ == self@.label,
    {
        &self.label
    }

    /// Appends an edge from this node, as it is now, to `to`.
    pub fn add_edge(&mut self, to: GraphNode, weight: i32)
        ensures
            final(self)@.label == old(self)@.label,
            final(self)@.edges == old(self)@.edges.push(
                EdgeModel { from: old(self)@, to: to@, weight },
            ),
    {
        let from = self.clone();
        let e = Edge::new(from, to, weight);
        proof {
            lemma_edges_model_push(self.edges@, e);
        }
        self.edges.push(e);
    }

    /// A copy of the node's edges, oldest first.
    pub fn get_edges(&self) -> (edges: Vec<Edge>)
        ensures
            edges@.len() == self@.edges.len(),
            forall|i: int| 0 <= i < edges@.len() ==> (#[trigger] edges@[i])@ == self@.edges[i],
    {
        let c = self.clone();
        proof {
            lemma_edges_model(c.edges@);
        }
        c.edges
    }

    /// The node's edges as text, oldest first.
    pub fn edge_texts(&self) -> (r: Vec<String>)
        ensures
            texts(r@) == self@.edges.map_values(|e: EdgeModel| edge_text(e)),
    {
        let mut r: Vec<String> = Vec::new();
        let mut k: usize = 0;
        proof {
            lemma_edges_model(self.edges@);
        }
        while k < self.edges.len()
            invariant
                k <= self.edges.len(),
                r@.len() == k,
                self.edges.len() == self@.edges.len(),
                forall|j: int|
                    0 <= j < self@.edges.len() ==> #[trigger] self@.edges[j] == self.edges@[j]@,
                forall|j: int| 0 <= j < k ==> (#[trigger] r@[j])@ == edge_text(self@.edges[j]),
            decreases self.edges.len() - k,
        {
            let line = self.edges[k].to_string();
            r.push(line);
            k += 1;
        }
        proof {
            assert(texts(r@) =~= self@.edges.map_values(|e: EdgeModel| edge_text(e)));
        }
        r
    }

    /// The node as a line of text, such as `A -> [A -> B (3), A -> C (1)]`
    /// with a line feed at its end.
    pub fn to_string(&self) -> (r: String)
        ensures
            r@ == node_text(self@),
    {
        let lines = self.edge_texts();
        let inner = join_strings(&lines, ", ");
        let mut r = self.label.clone();
        r.append(" -> [");
        r.append(inner.as_str());
        r.append("]\n");
        r
    }

    /// Whether two nodes have the same value: the same label and the same
    /// edges in the same order.
    pub fn same(&self, other: &GraphNode) -> (r: bool)
        ensures
            r == (self@ == other@),
        decreases self,
    {
        proof {
            lemma_edges_model(self.edges@);
            lemma_edges_model(other.edges@);
        }
        if self.label != other.label {
            return false;
        }
        if self.edges.len() != other.edges.len() {
            return false;
        }
        let mut i: usize = 0;
        while i < self.edges.len()
            invariant
                i <= self.edges.len(),
                self.edges.len() == other.edges.len(),
                edges_model(self.edges@).len() == self.edges.len(),
                edges_model(other.edges@).len() == self.edges.len(),
                forall|j: int|
                    0 <= j < self.edges.len() ==> #[trigger] edges_model(self.edges@)[j]
                        == self.edges@[j]@,
                forall|j: int|
                    0 <= j < self.edges.len() ==> #[trigger] edges_model(other.edges@)[j]
                        == other.edges@[j]@,
                forall|j: int| 0 <= j < i ==> self.edges@[j]@ == other.edges@[j]@,
            decreases self.edges.len() - i,
        {
            if !self.edges[i].same(&other.edges[i]) {
                assert(edges_model(self.edges@)[i as int] != edges_model(other.edges@)[i as int]);
                return false;
            }
            i += 1;
        }
        assert(edges_model(self.edges@) =~= edges_model(other.edges@));
        true
    }
}

impl Edge {
    /// An edge between two nodes with the given weight.
    pub fn new(from: GraphNode, to: GraphNode, weight: i32) -> (e: Self)
        ensures
            e@ == (EdgeModel { from: from@, to: to@, weight }),
    {
        Self { from, to, weight }
    }

    /// The node the edge leaves, as it was when the edge was added.
    pub fn from(&self) -> (n: &GraphNode)
        ensures
            n@ == self@.from,
    {
        &self.from
    }

    /// The node the edge reaches, as it was when the edge was added.
    pub fn to(&self) -> (n: &GraphNode)
        ensures
            n@ == self@.to,
    {
        &self.to
    }

    /// The edge's weight.
    pub fn weight(&self) -> (w: i32)
        ensures
            w == self@.weight,
    {
        self.weight
    }

    /// The edge as text, such as `A -> B (3)`.
    pub fn to_string(&self) -> (r: String)
        ensures
            r@ == edge_text(self@),
    {
        let mut r = self.from.label.clone();
        r.append(" -> ");
        r.append(self.to.label.as_str());
        r.append(" (");
        let w = decimal_string(self.weight);
        r.append(w.as_str());
        r.append(")");
        r
    }

    /// Whether two edges have the same value: equal ends and equal weight.
    pub fn same(&self, other: &Edge) -> (r: bool)
        ensures
            r == (self@ == other@),
        decreases self,
    {
        self.weight == other.weight && self.from.same(&other.from) && self.to.same(&other.to)
    }
}

/// A node without edges.
pub open spec fn bare(label: Seq<char>) -> NodeModel {
    NodeModel { label, edges: Seq::empty() }
}

/// An edge as text: both labels with an arrow between, then the weight in
/// round brackets.
pub open spec fn edge_text(e: EdgeModel) -> Seq<char> {
    e.from.label + " -> "@ + e.to.label + " ("@ + decimal(e.weight as int) + ")"@
}

/// A node as a line of text: its label, an arrow, and its edges between
/// square brackets with a comma and a blank between each two.
pub open spec fn node_text(n: NodeModel) -> Seq<char> {
    n.label + " -> ["@ + joined(n.edges.map_values(|e: EdgeModel| edge_text(e)), ", "@) + "]\n"@
}

/// The lines of all nodes of `g`, one after the other.
pub open spec fn graph_text(g: Seq<NodeModel>) -> Seq<char>
    decreases g.len(),
{
    if g.len() == 0 {
        Seq::empty()
    } else {
        graph_text(g.drop_last()) + node_text(g.last())
    }
}

/// Whether some node of `g` carries the label `l`.
pub open spec fn has_label(g: Seq<NodeModel>, l: Seq<char>) -> bool {
    exists|i: int| 0 <= i < g.len() && #[trigger] g[i].label == l
}

/// Whether `g` holds an edge from label `a` to label `b` with weight `w`.
pub open spec fn has_edge(g: Seq<NodeModel>, a: Seq<char>, b: Seq<char>, w: i32) -> bool {
    exists|i: int, k: int|
        0 <= i < g.len() && 0 <= k < g[i].edges.len() && g[i].label == a && (
        #[trigger] g[i].edges[k]).to.label == b && g[i].edges[k].weight == w
}

/// Whether every edge below `n`, at any depth, leaves the node that holds it
/// and is an edge of `g`.
pub open spec fn node_sound(g: Seq<NodeModel>, n: NodeModel) -> bool
    decreases n,
{
    forall|k: int|
        0 <= k < n.edges.len() ==> {
            &&& (#[trigger] n.edges[k]).from.label == n.label
            &&& has_label(g, n.edges[k].to.label)
            &&& has_edge(g, n.label, n.edges[k].to.label, n.edges[k].weight)
            &&& node_sound(g, n.edges[k].to)
        }
}

/// Where the node labelled `l` stands in `g`; meaningful when `has_label(g, l)`.
pub open spec fn index_of(g: Seq<NodeModel>, l: Seq<char>) -> int {
    choose|i: int| 0 <= i < g.len() && #[trigger] g[i].label == l
}

/// `g` after node `i` gained an edge to `to`.
pub open spec fn with_edge(g: Seq<NodeModel>, i: int, to: NodeModel, w: i32) -> Seq<NodeModel> {
    g.update(
        i,
        NodeModel {
            label: g[i].label,
            edges: g[i].edges.push(EdgeModel { from: g[i], to, weight: w }),
        },
    )
}

/// A node filed under a priority.
#[derive(Debug)]
pub struct NodeEntry {
    node: GraphNode,
    priority: i32,
}

impl View for NodeEntry {
    type V = (NodeModel, i32);

    closed spec fn view(&self) -> (NodeModel, i32) {
        (self.node@, self.priority)
    }
}

impl NodeEntry {
    /// An entry for `node` with the given priority.
    pub fn new(node: GraphNode, priority: i32) -> (e: Self)
        ensures
            e@ == (node@, priority),
    {
        Self { node, priority }
    }

    /// The node of the entry.
    pub fn node(&self) -> (n: &GraphNode)
        ensures
            n@ == self@.0,
    {
        &self.node
    }

    /// The priority of the entry.
    pub fn priority(&self) -> (p: i32)
        ensures
            p == self@.1,
    {
        self.priority
    }
}

/// An undirected weighted graph: its nodes in the order they were added.
#[derive(Debug)]
pub struct WeightedGraphs {
    nodes: Vec<GraphNode>,
}

impl View for WeightedGraphs {
    type V = Seq<NodeModel>;

    closed spec fn view(&self) -> Seq<NodeModel> {
        self.nodes@.map_values(|n: GraphNode| n@)
    }
}

impl WeightedGraphs {
    /// No two nodes share a label, every edge at any depth is sound, and
    /// every edge has its like in the other direction.
    pub open spec fn wf(&self) -> bool {
        &&& forall|i: int, j: int|
            0 <= i < j < self@.len() ==> (#[trigger] self@[i]).label != (#[trigger] self@[j]).label
        &&& forall|i: int| 0 <= i < self@.len() ==> node_sound(self@, #[trigger] self@[i])
        &&& symmetric(self@)
    }

    /// A graph without nodes.
    pub fn new() -> (g: Self)
        ensures
            g@.len() == 0,
            g.wf(),
    {
        let g = Self { nodes: Vec::new() };
        proof {
            cycles::lemma_symmetric_empty(g@);
        }
        g
    }

    /// Where the node with the given label stands, if there is one.
    pub fn position(&self, label: &String) -> (r: Option<usize>)
        ensures
            match r {
                Some(i) => i < self@.len() && self@[i as int].label == label@ && forall|j: int|
                    0 <= j < i ==> (#[trigger] self@[j]).label != label@,
                None => !has_label(self@, label@),
            },
    {
        let mut i: usize = 0;
        while i < self.nodes.len()
            invariant
                i <= self.nodes.len(),
                forall|j: int| 0 <= j < i ==> (#[trigger] self@[j]).label != label@,
            decreases self.nodes.len() - i,
        {
            if *self.nodes[i].label() == *label {
                return Some(i);
            }
            i += 1;
        }
        None
    }

    /// Whether the graph has a node with the given label.
    pub fn contains_node(&self, label: &String) -> (r: bool)
        ensures
            r == has_label(self@, label@),
    {
        self.position(label).is_some()
    }

    /// The graph as text: the line of each node, in the order the nodes were
    /// added.
    pub fn to_string(&self) -> (r: String)
        ensures
            r@ == graph_text(self@),
    {
        let mut r = String::new();
        let mut i: usize = 0;
        while i < self.nodes.len()
            invariant
                i <= self.nodes.len(),
                r@ == graph_text(self@.take(i as int)),
            decreases self.nodes.len() - i,
        {
            let line = self.nodes[i].to_string();
            proof {
                assert(self@.take(i + 1).drop_last() =~= self@.take(i as int));
                assert(self@.take(i + 1).last() == self@[i as int]);
            }
            r.append(line.as_str());
            i += 1;
        }
        proof {
            assert(self@.take(self.nodes.len() as int) =~= self@);
        }
        r
    }

    /// The edges of the node with the given label as text, oldest first;
    /// nothing where no node has that label.
    pub fn get_edges(&self, node: String) -> (r: Vec<String>)
        ensures
            !has_label(self@, node@) ==> r@.len() == 0,
            has_label(self@, node@) ==> exists|i: int|
                0 <= i < self@.len() && #[trigger] self@[i].label == node@ && texts(r@)
                    == self@[i].edges.map_values(|e: EdgeModel| edge_text(e)),
    {
        match self.position(&node) {
            Some(i) => self.nodes[i].edge_texts(),
            None => Vec::new(),
        }
    }

    /// The nodes of the graph, in the order they were added.
    pub fn nodes(&self) -> (r: &Vec<GraphNode>)
        ensures
            r@.len() == self@.len(),
            forall|i: int| 0 <= i < r@.len() ==> (#[trigger] r@[i])@ == self@[i],
    {
        &self.nodes
    }

    /// Adds a node without edges unless the label is already taken.
    pub fn add_node(&mut self, label: String)
        requires
            old(self).wf(),
        ensures
            final(self).wf(),
            has_label(old(self)@, label@) ==> final(self)@ == old(self)@,
            !has_label(old(self)@, label@) ==> final(self)@ == old(self)@.push(
                NodeModel { label: label@, edges: Seq::empty() },
            ),
    {
        if self.position(&label).is_none() {
            let node = GraphNode::new(label);
            proof {
                assert(node@.edges =~= Seq::empty());
                assert(self.nodes@.push(node).map_values(|n: GraphNode| n@) =~= self@.push(node@));
                let g0 = self@;
                let g1 = self@.push(node@);
                assert forall|i: int| 0 <= i < g1.len() implies node_sound(g1, #[trigger] g1[i]) by {
                    if i < g0.len() {
                        lemma_push_keeps(g0, node@);
                        lemma_node_sound_grows(g0, g1, g0[i]);
                    }
                }
                cycles::lemma_symmetric_push(g0, node@);
            }
            self.nodes.push(node);
        }
    }

    /// Adds an edge of the given weight in both directions. Each direction
    /// records its ends as they were before the call, except that the second
    /// records a node that is its own neighbour after the first was added.
    /// Nothing changes unless both labels are nodes of the graph.
    pub fn add_edge(&mut self, from: String, to: String, weight: i32)
        requires
            old(self).wf(),
        ensures
            final(self).wf(),
            !has_label(old(self)@, from@) || !has_label(old(self)@, to@) ==> final(self)@ == old(
                self,
            )@,
            has_label(old(self)@, from@) && has_label(old(self)@, to@) ==> final(self)@ == ({
                let g0 = old(self)@;
                let i = index_of(g0, from@);
                let j = index_of(g0, to@);
                let g1 = with_edge(g0, i, g0[j], weight);
                with_edge(g1, j, g0[i], weight)
            }),
    {
        let j = match self.position(&to) {
            Some(j) => j,
            None => {
                return ;
            },
        };
        let i = match self.position(&from) {
            Some(i) => i,
            None => {
                return ;
            },
        };
        let to_node = self.nodes[j].clone();
        let from_node = self.nodes[i].clone();
        let ghost g0 = self@;
        let ghost g1 = with_edge(g0, i as int, g0[j as int], weight);
        let ghost g2 = with_edge(g1, j as int, g0[i as int], weight);
        proof {
            lemma_index_of(g0, i as int);
            lemma_index_of(g0, j as int);
            lemma_with_edge_sound(g0, i as int, g0[j as int], weight);
            lemma_with_edge_sound(g1, j as int, g0[i as int], weight);
            cycles::lemma_symmetric_with_edges(g0, i as int, j as int, weight);
        }
        self.nodes[i].add_edge(to_node, weight);
        assert(self@ =~= g1);
        self.nodes[j].add_edge(from_node, weight);
        assert(self@ =~= g2);
    }
}

/// Labels are unique in a graph without repeated labels.
pub proof fn lemma_index_of(g: Seq<NodeModel>, i: int)
    requires
        0 <= i < g.len(),
        forall|a: int, b: int| 0 <= a < b < g.len() ==> (#[trigger] g[a]).label != (#[trigger] g[b]).label,
    ensures
        index_of(g, g[i].label) == i,
        has_label(g, g[i].label),
{
    let l = g[i].label;
    assert(g[i].label == l);
    let c = index_of(g, l);
    if c < i {
        assert(g[c].label != g[i].label);
    } else if i < c {
        assert(g[i].label != g[c].label);
    }
}

/// Adding an edge from a node of the graph to a sound copy of one of its
/// nodes keeps labels, edges and soundness.
pub proof fn lemma_with_edge_sound(g: Seq<NodeModel>, i: int, to: NodeModel, w: i32)
    requires
        0 <= i < g.len(),
        has_label(g, to.label),
        node_sound(g, to),
        forall|a: int| 0 <= a < g.len() ==> node_sound(g, #[trigger] g[a]),
    ensures
        with_edge(g, i, to, w).len() == g.len(),
        forall|a: int| 0 <= a < g.len() ==> (#[trigger] with_edge(g, i, to, w)[a]).label == g[a].label,
        forall|l: Seq<char>| has_label(g, l) <==> has_label(with_edge(g, i, to, w), l),
        forall|a: Seq<char>, b: Seq<char>, x: i32|
            has_edge(g, a, b, x) ==> has_edge(with_edge(g, i, to, w), a, b, x),
        forall|a: int|
            0 <= a < g.len() ==> node_sound(with_edge(g, i, to, w), #[trigger] with_edge(g, i, to, w)[a]),
        forall|n: NodeModel| node_sound(g, n) ==> node_sound(with_edge(g, i, to, w), n),
{
    let g1 = with_edge(g, i, to, w);
    assert forall|l: Seq<char>| has_label(g, l) <==> has_label(g1, l) by {
        if has_label(g, l) {
            let a = choose|a: int| 0 <= a < g.len() && #[trigger] g[a].label == l;
            assert(g1[a].label == l);
        }
        if has_label(g1, l) {
            let a = choose|a: int| 0 <= a < g1.len() && #[trigger] g1[a].label == l;
            assert(g[a].label == l);
        }
    }
    assert forall|a: Seq<char>, b: Seq<char>, x: i32| has_edge(g, a, b, x) implies has_edge(
        g1,
        a,
        b,
        x,
    ) by {
        let (p, k) = choose|p: int, k: int|
            0 <= p < g.len() && 0 <= k < g[p].edges.len() && g[p].label == a && (
            #[trigger] g[p].edges[k]).to.label == b && g[p].edges[k].weight == x;
        assert(g1[p].edges[k].to.label == b);
    }
    assert forall|n: NodeModel| node_sound(g, n) implies node_sound(g1, n) by {
        lemma_node_sound_grows(g, g1, n);
    }
    assert forall|a: int| 0 <= a < g.len() implies node_sound(g1, #[trigger] g1[a]) by {
        if a != i {
            assert(g1[a] == g[a]);
        } else {
            let n = g1[i];
            let last = g[i].edges.len() as int;
            assert(n.edges[last].to.label == to.label);
            assert(has_edge(g1, n.label, to.label, w));
            assert forall|k: int| 0 <= k < n.edges.len() implies {
                &&& (#[trigger] n.edges[k]).from.label == n.label
                &&& has_label(g1, n.edges[k].to.label)
                &&& has_edge(g1, n.label, n.edges[k].to.label, n.edges[k].weight)
                &&& node_sound(g1, n.edges[k].to)
            } by {
                if k < last {
                    assert(n.edges[k] == g[i].edges[k]);
                    assert(node_sound(g, g[i]));
                }
            }
        }
    }
}

/// A graph that gains a node keeps its labels and edges.
pub proof fn lemma_push_keeps(g0: Seq<NodeModel>, x: NodeModel)
    ensures
        forall|l: Seq<char>| has_label(g0, l) ==> has_label(g0.push(x), l),
        forall|a: Seq<char>, b: Seq<char>, w: i32|
            has_edge(g0, a, b, w) ==> has_edge(g0.push(x), a, b, w),
{
    let g1 = g0.push(x);
    assert forall|l: Seq<char>| has_label(g0, l) implies has_label(g1, l) by {
        let i = choose|i: int| 0 <= i < g0.len() && #[trigger] g0[i].label == l;
        assert(g1[i].label == l);
    }
    assert forall|a: Seq<char>, b: Seq<char>, w: i32| has_edge(g0, a, b, w) implies has_edge(
        g1,
        a,
        b,
        w,
    ) by {
        let (i, k) = choose|i: int, k: int|
            0 <= i < g0.len() && 0 <= k < g0[i].edges.len() && g0[i].label == a && (
            #[trigger] g0[i].edges[k]).to.label == b && g0[i].edges[k].weight == w;
        assert(g1[i].edges[k].to.label == b);
    }
}

/// Soundness survives when the graph gains labels and edges.
pub proof fn lemma_node_sound_grows(g0: Seq<NodeModel>, g1: Seq<NodeModel>, n: NodeModel)
    requires
        node_sound(g0, n),
        forall|l: Seq<char>| has_label(g0, l) ==> has_label(g1, l),
        forall|a: Seq<char>, b: Seq<char>, w: i32| has_edge(g0, a, b, w) ==> has_edge(g1, a, b, w),
    ensures
        node_sound(g1, n),
    decreases n,
{
    assert forall|k: int| 0 <= k < n.edges.len() implies {
        &&& (#[trigger] n.edges[k]).from.label == n.label
        &&& has_label(g1, n.edges[k].to.label)
        &&& has_edge(g1, n.label, n.edges[k].to.label, n.edges[k].weight)
        &&& node_sound(g1, n.edges[k].to)
    } by {
        lemma_node_sound_grows(g0, g1, n.edges[k].to);
    }
}

} // verus!
