//! The graph store: nodes named by outside labels and numbered densely in the
//! order in which they were first seen, and an append-only list of edges.
use vstd::prelude::*;
use std::collections::HashMap;
use petgraph::graph::Graph;
use petgraph::graph::NodeIndex;
use petgraph::graph::EdgeIndex;
use petgraph::Undirected;
use petgraph::algo::dijkstra;
use crate::walks::connected;
use crate::input::line_value;
use crate::input::parse_line;
use crate::input::LineError;
use crate::walks::degree;
use crate::walks::neighbors_upto;
use crate::walks::is_distance;
use crate::walks::is_hops;
use crate::walks::edges_within;

verus! {

broadcast use vstd::std_specs::hash::group_hash_axioms;

/// `petgraph::Undirected`, the marker of a graph whose edges have no direction.
#[verifier::external_type_specification]
#[verifier::external_body]
pub struct ExUndirected(Undirected);

/// `petgraph::graph::Graph`, held as an opaque value: what it contains is
/// spoken of through `graph_labels` and `graph_edges` only.
#[verifier::external_type_specification]
#[verifier::external_body]
#[verifier::reject_recursive_types(N)]
#[verifier::reject_recursive_types(E)]
#[verifier::reject_recursive_types(Ty)]
#[verifier::reject_recursive_types(Ix)]
pub struct ExGraph<N, E, Ty, Ix>(Graph<N, E, Ty, Ix>);

/// The node weights of a petgraph graph, by node index.
pub uninterp spec fn graph_labels(g: Graph<u32, (), Undirected, u32>) -> Seq<u32>;

/// The endpoint pairs of a petgraph graph's edges, by edge index.
pub uninterp spec fn graph_edges(g: Graph<u32, (), Undirected, u32>) -> Seq<(usize, usize)>;

/// The largest number of nodes, and of edges, that a graph indexed by `u32`
/// holds: the index `u32::MAX` itself is kept free.
pub const CAPACITY: usize = 4294967295;

/// `Graph::new_undirected`: a graph without nodes and edges.
#[verifier::external_body]
fn graph_new() -> (g: Graph<u32, (), Undirected, u32>)
    ensures
        graph_labels(g) == Seq::<u32>::empty(),
        graph_edges(g) == Seq::<(usize, usize)>::empty(),
{
    Graph::new_undirected()
}

/// `Graph::add_node`: appends one node with the given weight and returns its
/// index, the former node count. It panics once the index space is used up.
#[verifier::external_body]
fn graph_add_node(g: &mut Graph<u32, (), Undirected, u32>, label: u32) -> (i: usize)
    requires
        graph_labels(*old(g)).len() < CAPACITY,
    ensures
        graph_labels(*final(g)) == graph_labels(*old(g)).push(label),
        graph_edges(*final(g)) == graph_edges(*old(g)),
        i == graph_labels(*old(g)).len(),
{
    g.add_node(label).index()
}

/// `Graph::add_edge`: appends one edge between two existing nodes. It panics
/// on a node index out of bounds and once the index space is used up.
#[verifier::external_body]
fn graph_add_edge(g: &mut Graph<u32, (), Undirected, u32>, a: usize, b: usize)
    requires
        a < graph_labels(*old(g)).len(),
        b < graph_labels(*old(g)).len(),
        graph_labels(*old(g)).len() <= CAPACITY,
        graph_edges(*old(g)).len() < CAPACITY,
    ensures
        graph_labels(*final(g)) == graph_labels(*old(g)),
        graph_edges(*final(g)) == graph_edges(*old(g)).push((a, b)),
{
    g.add_edge(NodeIndex::new(a), NodeIndex::new(b), ());
}

/// `Graph::node_count`: the number of nodes.
#[verifier::external_body]
fn graph_node_count(g: &Graph<u32, (), Undirected, u32>) -> (n: usize)
    ensures
        n == graph_labels(*g).len(),
{
    g.node_count()
}

/// `Graph::edge_count`: the number of edges.
#[verifier::external_body]
fn graph_edge_count(g: &Graph<u32, (), Undirected, u32>) -> (n: usize)
    ensures
        n == graph_edges(*g).len(),
{
    g.edge_count()
}

/// `Graph::node_weight`: the weight of an existing node.
#[verifier::external_body]
fn graph_label(g: &Graph<u32, (), Undirected, u32>, i: usize) -> (label: u32)
    requires
        i < graph_labels(*g).len(),
        graph_labels(*g).len() <= CAPACITY,
    ensures
        label == graph_labels(*g)[i as int],
{
    *g.node_weight(NodeIndex::new(i)).unwrap()
}

/// `Graph::edge_endpoints`: the two node indices that an existing edge was
/// added with, in that order.
#[verifier::external_body]
fn graph_endpoints(g: &Graph<u32, (), Undirected, u32>, i: usize) -> (e: (usize, usize))
    requires
        i < graph_edges(*g).len(),
        graph_edges(*g).len() <= CAPACITY,
    ensures
        e == graph_edges(*g)[i as int],
{
    let (a, b) = g.edge_endpoints(EdgeIndex::new(i)).unwrap();
    (a.index(), b.index())
}

/// `Graph::edges(..).count()`: on an undirected graph the iterator yields
/// every edge that touches the node once, a self-loop included.
#[verifier::external_body]
fn graph_degree(g: &Graph<u32, (), Undirected, u32>, u: usize) -> (d: usize)
    requires
        u < graph_labels(*g).len(),
        graph_labels(*g).len() <= CAPACITY,
    ensures
        d == degree(graph_edges(*g), u),
{
    g.edges(NodeIndex::new(u)).count()
}

/// The cost of every edge: distances count edges.
fn edge_cost() -> (c: u64)
    ensures
        c == 1,
{
    1
}

/// `petgraph::algo::dijkstra` from `source` with `target` as its goal and
/// every edge at the cost of `edge_cost`, then the entry of `target` in the map it returns:
/// the length of a shortest path where one exists, no entry where none does.
/// It panics on a source that is no node.
#[verifier::external_body]
fn graph_distance(g: &Graph<u32, (), Undirected, u32>, source: usize, target: usize) -> (d: Option<u64>)
    requires
        source < graph_labels(*g).len(),
        target < graph_labels(*g).len(),
        graph_labels(*g).len() <= CAPACITY,
    ensures
        match d {
            Some(k) => is_distance(graph_edges(*g), source, target, k as nat),
            None => !connected(graph_edges(*g), source, target),
        },
{
    let goal = NodeIndex::new(target);
    dijkstra(g, NodeIndex::new(source), Some(goal), |_| edge_cost()).get(&goal).copied()
}

/// The labels after `label` has been seen: appended unless already there.
pub open spec fn with_label(labels: Seq<u32>, label: u32) -> Seq<u32> {
    if labels.contains(label) {
        labels
    } else {
        labels.push(label)
    }
}

/// An undirected multigraph whose nodes carry distinct `u32` labels.
pub struct GraphStore {
    graph: Graph<u32, (), Undirected, u32>,
    index: HashMap<u32, usize>,
}

impl GraphStore {
    /// The label of each node, by node index (first-seen order).
    pub closed spec fn labels(&self) -> Seq<u32> {
        graph_labels(self.graph)
    }

    /// The endpoint pair of each edge, in the order of insertion.
    pub closed spec fn edges(&self) -> Seq<(usize, usize)> {
        graph_edges(self.graph)
    }

    /// The label index agrees with the node list, and both stay within capacity.
    pub closed spec fn indexed(&self) -> bool {
        &&& forall|l: u32| #[trigger]
            self.index@.contains_key(l) ==> self.index@[l] < self.labels().len()
                && self.labels()[self.index@[l] as int] == l
        &&& forall|i: int|
            0 <= i < self.labels().len() ==> self.index@.contains_key(#[trigger] self.labels()[i])
                && self.index@[self.labels()[i]] == i
    }

    /// Validity: labels are pairwise distinct, every edge joins existing
    /// nodes, and node and edge counts are within `CAPACITY`.
    pub open spec fn wf(&self) -> bool {
        &&& self.indexed()
        &&& self.labels().no_duplicates()
        &&& edges_within(self.edges(), self.labels().len() as int)
        &&& self.labels().len() <= CAPACITY
        &&& self.edges().len() <= CAPACITY
    }

    proof fn lemma_indexed_distinct(&self)
        requires
            self.indexed(),
        ensures
            self.labels().no_duplicates(),
            forall|l: u32| self.index@.contains_key(l) <==> self.labels().contains(l),
    {
        assert forall|l: u32| self.index@.contains_key(l) implies self.labels().contains(l) by {
            assert(self.labels()[self.index@[l] as int] == l);
        }
    }

    /// An empty graph.
    pub fn new() -> (g: GraphStore)
        ensures
            g.wf(),
            g.labels() == Seq::<u32>::empty(),
            g.edges() == Seq::<(usize, usize)>::empty(),
    {
        GraphStore { graph: graph_new(), index: HashMap::new() }
    }

    /// Number of nodes.
    pub fn node_count(&self) -> (n: usize)
        ensures
            n == self.labels().len(),
    {
        graph_node_count(&self.graph)
    }

    /// Number of edges, duplicates and self-loops included.
    pub fn edge_count(&self) -> (n: usize)
        ensures
            n == self.edges().len(),
    {
        graph_edge_count(&self.graph)
    }

    /// The node index of a label, if the label has been seen.
    pub fn index_of(&self, label: u32) -> (r: Option<usize>)
        requires
            self.wf(),
        ensures
            match r {
                Some(i) => i < self.labels().len() && self.labels()[i as int] == label,
                None => !self.labels().contains(label),
            },
    {
        proof {
            self.lemma_indexed_distinct();
        }
        match self.index.get(&label) {
            Some(i) => Some(*i),
            None => None,
        }
    }

    /// The label of a node.
    pub fn label_of(&self, node: usize) -> (r: Option<u32>)
        requires
            self.wf(),
        ensures
            r == if node < self.labels().len() {
                Some(self.labels()[node as int])
            } else {
                None
            },
    {
        if node < graph_node_count(&self.graph) {
            Some(graph_label(&self.graph, node))
        } else {
            None
        }
    }

    /// The endpoints of the edge with the given insertion rank.
    pub fn edge_at(&self, i: usize) -> (e: (usize, usize))
        requires
            self.wf(),
            i < self.edges().len(),
        ensures
            e == self.edges()[i as int],
            e.0 < self.labels().len(),
            e.1 < self.labels().len(),
    {
        graph_endpoints(&self.graph, i)
    }

    /// Number of edges that touch `node`; zero for an index that is no node.
    pub fn degree(&self, node: usize) -> (d: usize)
        requires
            self.wf(),
        ensures
            d == if node < self.labels().len() {
                degree(self.edges(), node)
            } else {
                0
            },
    {
        if node < graph_node_count(&self.graph) {
            graph_degree(&self.graph, node)
        } else {
            0
        }
    }

    /// The degree of every node, by node index.
    pub fn degrees(&self) -> (degrees: Vec<usize>)
        requires
            self.wf(),
        ensures
            degrees.len() == self.labels().len(),
            forall|u: usize|
                u < degrees.len() ==> #[trigger] degrees[u as int] == degree(self.edges(), u),
    {
        let n: usize = graph_node_count(&self.graph);
        let mut degrees: Vec<usize> = Vec::new();
        let mut u: usize = 0;
        while u < n
            invariant
                u <= n,
                self.wf(),
                n == self.labels().len(),
                degrees.len() == u,
                forall|w: usize|
                    w < u ==> #[trigger] degrees[w as int] == degree(self.edges(), w),
            decreases n - u,
        {
            degrees.push(graph_degree(&self.graph, u));
            u = u + 1;
        }
        degrees
    }

    /// The number of edges on a shortest path from `source` to `target`;
    /// `None` where no path joins them, or where one of them is no node.
    pub fn distance_to(&self, source: usize, target: usize) -> (d: Option<u64>)
        requires
            self.wf(),
        ensures
            source >= self.labels().len() || target >= self.labels().len() ==> d.is_none(),
            source < self.labels().len() && target < self.labels().len() ==> is_hops(
                self.edges(),
                source,
                target,
                d,
            ),
            source == target && source < self.labels().len() ==> d == Some(0u64),
    {
        let n: usize = graph_node_count(&self.graph);
        if source >= n || target >= n {
            return None;
        }
        let d: Option<u64> = graph_distance(&self.graph, source, target);
        proof {
            if source == target {
                crate::walks::law_distance_to_self(self.edges(), source, d);
            }
        }
        d
    }

    /// `self` is what `before` becomes by taking in an edge between the
    /// labels `a` and `b`: with `added`, the labels not seen before are new
    /// nodes, `a` first, and the edge is the last one; without, which is so
    /// only where a count would exceed `CAPACITY`, nothing has changed.
    pub open spec fn follows(&self, before: &GraphStore, a: u32, b: u32, added: bool) -> bool {
        let seen = with_label(with_label(before.labels(), a), b);
        &&& added == (seen.len() <= CAPACITY && before.edges().len() < CAPACITY)
        &&& !added ==> self.labels() == before.labels() && self.edges() == before.edges()
        &&& added ==> self.labels() == seen && self.edges().len() == before.edges().len() + 1
            && self.edges().drop_last() == before.edges() && self.labels()[self.edges().last().0 as int]
            == a && self.labels()[self.edges().last().1 as int] == b
    }

    /// Takes in one line of an edge list: a line that gives an edge adds
    /// it, any other line changes nothing and is reported.
    pub fn add_line(&mut self, line: &[u8]) -> (r: Result<bool, LineError>)
        requires
            old(self).wf(),
        ensures
            final(self).wf(),
            match line_value(line@) {
                Ok(e) => r.is_ok() && final(self).follows(old(self), e.0, e.1, r.unwrap()),
                Err(why) => r == Err::<bool, LineError>(why) && final(self).labels() == old(
                    self,
                ).labels() && final(self).edges() == old(self).edges(),
            },
    {
        match parse_line(line) {
            Ok(e) => Ok(self.add_edge(e.0, e.1)),
            Err(why) => Err(why),
        }
    }

    /// The node indices, in the order in which the nodes were first seen.
    pub fn node_indices(&self) -> (nodes: Vec<usize>)
        ensures
            nodes.len() == self.labels().len(),
            forall|i: int| 0 <= i < nodes.len() ==> #[trigger] nodes[i] == i,
    {
        let n: usize = graph_node_count(&self.graph);
        let mut nodes: Vec<usize> = Vec::new();
        let mut i: usize = 0;
        while i < n
            invariant
                i <= n,
                nodes.len() == i,
                forall|j: int| 0 <= j < i ==> #[trigger] nodes[j] == j,
            decreases n - i,
        {
            nodes.push(i);
            i = i + 1;
        }
        nodes
    }

    /// The node at the other end of each edge that touches `node`, in the
    /// order of the edges; a self-loop gives the node itself once. Empty for
    /// an index that is no node.
    pub fn neighbors(&self, node: usize) -> (near: Vec<usize>)
        requires
            self.wf(),
        ensures
            near@ == neighbors_upto(self.edges(), node, self.edges().len() as int),
            forall|i: int| 0 <= i < near.len() ==> (#[trigger] near[i]) < self.labels().len(),
    {
        let m: usize = graph_edge_count(&self.graph);
        let mut near: Vec<usize> = Vec::new();
        let mut i: usize = 0;
        while i < m
            invariant
                i <= m,
                self.wf(),
                m == self.edges().len(),
                near@ == neighbors_upto(self.edges(), node, i as int),
                forall|j: int| 0 <= j < near.len() ==> (#[trigger] near[j]) < self.labels().len(),
            decreases m - i,
        {
            let e: (usize, usize) = self.edge_at(i);
            if e.0 == node {
                near.push(e.1);
            } else if e.1 == node {
                near.push(e.0);
            }
            i = i + 1;
        }
        near
    }

    /// Number of nodes that seeing `a` and then `b` would add.
    fn missing(&self, a: u32, b: u32) -> (k: usize)
        requires
            self.wf(),
        ensures
            k == with_label(with_label(self.labels(), a), b).len() - self.labels().len(),
            k <= 2,
    {
        proof {
            self.lemma_indexed_distinct();
        }
        let mut k: usize = 0;
        if !self.index.contains_key(&a) {
            k = k + 1;
        }
        if a != b && !self.index.contains_key(&b) {
            k = k + 1;
        }
        proof {
            let l0 = self.labels();
            let l1 = with_label(l0, a);
            assert(l1.contains(a)) by {
                if !l0.contains(a) {
                    assert(l1[l0.len() as int] == a);
                }
            }
            if a != b {
                assert(l1.contains(b) == l0.contains(b)) by {
                    if l1.contains(b) {
                        let j = choose|j: int| 0 <= j < l1.len() && l1[j] == b;
                        assert(l0[j] == b);
                    }
                    if l0.contains(b) {
                        let j = choose|j: int| 0 <= j < l0.len() && l0[j] == b;
                        assert(l1[j] == b);
                    }
                }
            }
        }
        k
    }

    /// The index of `label`, which becomes a new node if it was not seen before.
    fn intern(&mut self, label: u32) -> (i: usize)
        requires
            old(self).wf(),
            with_label(old(self).labels(), label).len() <= CAPACITY,
        ensures
            final(self).wf(),
            final(self).labels() == with_label(old(self).labels(), label),
            final(self).edges() == old(self).edges(),
            i < final(self).labels().len(),
            final(self).labels()[i as int] == label,
    {
        proof {
            self.lemma_indexed_distinct();
        }
        let found: Option<usize> = match self.index.get(&label) {
            Some(i) => Some(*i),
            None => None,
        };
        match found {
            Some(i) => i,
            None => {
                let i: usize = graph_add_node(&mut self.graph, label);
                self.index.insert(label, i);
                proof {
                    let l0 = old(self).labels();
                    let l1 = self.labels();
                    assert(l1 == l0.push(label));
                    assert forall|j: int| 0 <= j < l1.len() implies self.index@.contains_key(
                        #[trigger] l1[j],
                    ) && self.index@[l1[j]] == j by {
                        if j < l0.len() {
                            assert(l0[j] == l1[j]);
                            assert(l0.contains(l0[j]));
                        }
                    }
                    assert forall|j: int, k: int|
                        0 <= j < l1.len() && 0 <= k < l1.len() && j != k implies l1[j] != l1[k] by {
                        if j < l0.len() {
                            assert(l0.contains(l1[j]));
                        }
                        if k < l0.len() {
                            assert(l0.contains(l1[k]));
                        }
                    }
                }
                i
            },
        }
    }

    /// Takes in one edge between the nodes labelled `a` and `b`. A label not
    /// seen before becomes a new node, `a` before `b`; the edge is appended
    /// even if an equal one exists. Returns `false`, and changes nothing,
    /// only where the node or edge count would exceed `CAPACITY`.
    pub fn add_edge(&mut self, a: u32, b: u32) -> (added: bool)
        requires
            old(self).wf(),
        ensures
            final(self).wf(),
            final(self).follows(old(self), a, b, added),
    {
        let k: usize = self.missing(a, b);
        let n: usize = graph_node_count(&self.graph);
        let m: usize = graph_edge_count(&self.graph);
        if k > CAPACITY - n || m >= CAPACITY {
            return false;
        }
        let ia: usize = self.intern(a);
        let ib: usize = self.intern(b);
        graph_add_edge(&mut self.graph, ia, ib);
        proof {
            let e0 = old(self).edges();
            assert(self.edges() == e0.push((ia, ib)));
            assert(self.edges().drop_last() == e0);
            assert(with_label(old(self).labels(), a)[ia as int] == a);
            assert forall|l: u32| #[trigger]
                self.index@.contains_key(l) implies self.index@[l] < self.labels().len()
                && self.labels()[self.index@[l] as int] == l by {}
        }
        true
    }
}

} // verus!
