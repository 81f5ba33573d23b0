//! One relation graph: a directed multigraph over entity handles.
//!
//! The graph itself is petgraph's `Graph`. What it holds is named by four
//! functions (`graph_nodes`, `graph_out`, `graph_in`, `graph_edge_count`), and
//! the contracts of the calls into petgraph are stated over them. Everything
//! else in this module is proved from those contracts.

use vstd::prelude::*;

verus! {

/// petgraph's `Graph`, of which nothing is known but what its calls say.
#[verifier::external_type_specification]
#[verifier::external_body]
#[verifier::reject_recursive_types(N)]
#[verifier::reject_recursive_types(E)]
#[verifier::reject_recursive_types(Ty)]
#[verifier::reject_recursive_types(Ix)]
pub struct ExGraph<N, E, Ty, Ix>(petgraph::graph::Graph<N, E, Ty, Ix>);

/// petgraph's marker for directed graphs.
#[verifier::external_type_specification]
#[verifier::external_body]
pub struct ExDirected(petgraph::Directed);

/// A directed graph whose vertices carry entity handles and whose edges carry
/// the relation's name.
pub type RelationGraph = petgraph::graph::Graph<u64, String, petgraph::Directed, u32>;

/// One end of an edge as seen from the other: the vertex index there, and the
/// edge's label.
pub type EdgeEnd = (int, Seq<char>);

/// The handle stored at each vertex, by vertex index.
pub uninterp spec fn graph_nodes(g: petgraph::graph::Graph<u64, String, petgraph::Directed, u32>) -> Seq<u64>;

/// For each vertex, its outgoing edges (target index and label) in the order
/// in which petgraph walks them.
pub uninterp spec fn graph_out(g: petgraph::graph::Graph<u64, String, petgraph::Directed, u32>) -> Seq<Seq<(int, Seq<char>)>>;

/// For each vertex, its incoming edges (source index and label) in the order
/// in which petgraph walks them.
pub uninterp spec fn graph_in(g: petgraph::graph::Graph<u64, String, petgraph::Directed, u32>) -> Seq<Seq<(int, Seq<char>)>>;

/// The number of edges in the graph.
pub uninterp spec fn graph_edge_count(g: petgraph::graph::Graph<u64, String, petgraph::Directed, u32>) -> nat;

/// The largest number of vertices, and of edges, that a graph indexed by
/// `u32` can take.
pub const GRAPH_LIMIT: usize = 4294967295;

/// The label of each of `arcs`.
pub open spec fn labels(arcs: Seq<EdgeEnd>) -> Seq<Seq<char>> {
    Seq::new(arcs.len(), |k: int| arcs[k].1)
}

/// Whether one of `arcs` ends at vertex `b`.
pub open spec fn leads_to(arcs: Seq<EdgeEnd>, b: int) -> bool {
    exists|k: int| 0 <= k < arcs.len() && (#[trigger] arcs[k]).0 == b
}

/// What a relation graph holds, as plain values.
pub struct RelationView {
    pub vertices: Seq<u64>,
    pub out: Seq<Seq<EdgeEnd>>,
    pub inc: Seq<Seq<EdgeEnd>>,
    pub edge_count: nat,
}

impl RelationView {
    pub open spec fn empty() -> RelationView {
        RelationView { vertices: Seq::empty(), out: Seq::empty(), inc: Seq::empty(), edge_count: 0 }
    }

    /// Each vertex has its two edge lists, every edge end is a vertex, and no
    /// handle stands at two vertices.
    pub open spec fn wf(self) -> bool {
        &&& self.out.len() == self.vertices.len()
        &&& self.inc.len() == self.vertices.len()
        &&& self.vertices.no_duplicates()
        &&& forall|i: int, k: int|
            0 <= i < self.out.len() && 0 <= k < self.out[i].len() ==> 0 <= (#[trigger] self.out[i][k]).0
                < self.vertices.len()
        &&& forall|i: int, k: int|
            0 <= i < self.inc.len() && 0 <= k < self.inc[i].len() ==> 0 <= (#[trigger] self.inc[i][k]).0
                < self.vertices.len()
    }

    /// Every edge carries `label`.
    pub open spec fn labelled(self, label: Seq<char>) -> bool {
        &&& forall|i: int, k: int|
            0 <= i < self.out.len() && 0 <= k < self.out[i].len() ==> (#[trigger] self.out[i][k]).1 == label
        &&& forall|i: int, k: int|
            0 <= i < self.inc.len() && 0 <= k < self.inc[i].len() ==> (#[trigger] self.inc[i][k]).1 == label
    }

    /// The index of the vertex that holds `handle`, if there is one.
    pub open spec fn vertex_of(self, handle: u64) -> Option<int> {
        if self.vertices.contains(handle) {
            Some(self.vertices.index_of(handle))
        } else {
            None
        }
    }

    /// The graph with a vertex for `handle`: unchanged if it has one already.
    pub open spec fn with_vertex(self, handle: u64) -> RelationView {
        if self.vertices.contains(handle) {
            self
        } else {
            RelationView {
                vertices: self.vertices.push(handle),
                out: self.out.push(Seq::empty()),
                inc: self.inc.push(Seq::empty()),
                edge_count: self.edge_count,
            }
        }
    }

    /// The graph with one more edge from vertex `a` to vertex `b`. The new
    /// edge comes first in both of its edge lists; nothing is merged.
    pub open spec fn with_edge(self, a: int, b: int, label: Seq<char>) -> RelationView {
        RelationView {
            vertices: self.vertices,
            out: self.out.update(a, seq![(b, label)] + self.out[a]),
            inc: self.inc.update(b, seq![(a, label)] + self.inc[b]),
            edge_count: self.edge_count + 1,
        }
    }

    /// The graph after linking `source` to each of `targets` in turn: each end
    /// is found or created, then one edge is added per target.
    pub open spec fn with_edges(self, source: u64, targets: Seq<u64>, label: Seq<char>) -> RelationView
        decreases targets.len(),
    {
        if targets.len() == 0 {
            self.with_vertex(source)
        } else {
            let linked = self.with_edges(source, targets.drop_last(), label).with_vertex(targets.last());
            linked.with_edge(
                linked.vertices.index_of(source),
                linked.vertices.index_of(targets.last()),
                label,
            )
        }
    }

    /// The labels of the edges that leave the vertex of `handle`; none if the
    /// handle has no vertex here.
    pub open spec fn labels_from(self, handle: u64) -> Seq<Seq<char>> {
        match self.vertex_of(handle) {
            Some(i) => labels(self.out[i]),
            None => Seq::empty(),
        }
    }

    /// The labels of the edges that enter the vertex of `handle`; none if the
    /// handle has no vertex here.
    pub open spec fn labels_into(self, handle: u64) -> Seq<Seq<char>> {
        match self.vertex_of(handle) {
            Some(i) => labels(self.inc[i]),
            None => Seq::empty(),
        }
    }

    /// The handles at the far end of the edges that leave the vertex of
    /// `handle`, one per edge.
    pub open spec fn successors(self, handle: u64) -> Seq<u64> {
        match self.vertex_of(handle) {
            Some(i) => Seq::new(self.out[i].len(), |k: int| self.vertices[self.out[i][k].0]),
            None => Seq::empty(),
        }
    }

    /// Whether some edge leads from the vertex of `from` to the vertex of `to`.
    pub open spec fn has_edge(self, from: u64, to: u64) -> bool {
        match (self.vertex_of(from), self.vertex_of(to)) {
            (Some(i), Some(j)) => leads_to(self.out[i], j),
            _ => false,
        }
    }
}

/// What `g` holds.
pub open spec fn view_of(g: RelationGraph) -> RelationView {
    RelationView {
        vertices: graph_nodes(g),
        out: graph_out(g),
        inc: graph_in(g),
        edge_count: graph_edge_count(g),
    }
}

/// The edge ends of a walk, as plain values.
pub open spec fn arcs_of(items: Seq<(usize, String)>) -> Seq<EdgeEnd> {
    Seq::new(items.len(), |k: int| (items[k].0 as int, items[k].1@))
}

/// `Graph::new`: a graph without vertices or edges.
#[verifier::external_body]
pub(crate) fn graph_new() -> (g: RelationGraph)
    ensures
        view_of(g) == RelationView::empty(),
{
    petgraph::graph::Graph::new()
}

/// `Graph::node_count`: the number of vertices.
#[verifier::external_body]
pub(crate) fn graph_node_count(g: &RelationGraph) -> (n: usize)
    ensures
        n == graph_nodes(*g).len(),
{
    g.node_count()
}

/// `Graph::edge_count`: the number of edges.
#[verifier::external_body]
pub(crate) fn graph_edge_total(g: &RelationGraph) -> (n: usize)
    ensures
        n == graph_edge_count(*g),
{
    g.edge_count()
}

/// Indexing a `Graph` by a vertex index: the handle stored there. The index
/// has to be that of a vertex, as indexing panics otherwise.
#[verifier::external_body]
pub(crate) fn graph_node_weight(g: &RelationGraph, i: usize) -> (handle: u64)
    requires
        i < graph_nodes(*g).len(),
    ensures
        handle == graph_nodes(*g)[i as int],
{
    g[petgraph::graph::NodeIndex::new(i)]
}

/// `Graph::add_node`: appends a vertex without edges and returns its index.
/// It panics when the graph is full, so that is left out.
#[verifier::external_body]
pub(crate) fn graph_add_node(g: &mut RelationGraph, handle: u64) -> (i: usize)
    requires
        graph_nodes(*old(g)).len() < GRAPH_LIMIT,
    ensures
        i == graph_nodes(*old(g)).len(),
        graph_nodes(*final(g)) == graph_nodes(*old(g)).push(handle),
        graph_out(*final(g)) == graph_out(*old(g)).push(Seq::empty()),
        graph_in(*final(g)) == graph_in(*old(g)).push(Seq::empty()),
        graph_edge_count(*final(g)) == graph_edge_count(*old(g)),
{
    g.add_node(handle).index()
}

/// `Graph::add_edge`: adds an edge from vertex `a` to vertex `b`, parallel to
/// any that is there already. The new edge is the first that a walk of `a`'s
/// outgoing or of `b`'s incoming edges meets. It panics on an index that is no
/// vertex and when the graph is full, so both are left out.
#[verifier::external_body]
pub(crate) fn graph_add_edge(g: &mut RelationGraph, a: usize, b: usize, label: String)
    requires
        a < graph_nodes(*old(g)).len(),
        b < graph_nodes(*old(g)).len(),
        graph_edge_count(*old(g)) < GRAPH_LIMIT,
    ensures
        view_of(*final(g)) == view_of(*old(g)).with_edge(a as int, b as int, label@),
{
    g.add_edge(petgraph::graph::NodeIndex::new(a), petgraph::graph::NodeIndex::new(b), label);
}

/// `Graph::edges_directed` with `Outgoing`: the edges that leave vertex `a`,
/// each as its target's index and its label, in walking order.
#[verifier::external_body]
pub(crate) fn graph_outgoing(g: &RelationGraph, a: usize) -> (arcs: Vec<(usize, String)>)
    requires
        a < graph_nodes(*g).len(),
    ensures
        arcs_of(arcs@) == graph_out(*g)[a as int],
{
    g.edges_directed(petgraph::graph::NodeIndex::new(a), petgraph::Direction::Outgoing)
        .map(|e| (petgraph::visit::EdgeRef::target(&e).index(), e.weight().clone()))
        .collect()
}

/// `Graph::edges_directed` with `Incoming`: the edges that enter vertex `a`,
/// each as its source's index and its label, in walking order.
#[verifier::external_body]
pub(crate) fn graph_incoming(g: &RelationGraph, a: usize) -> (arcs: Vec<(usize, String)>)
    requires
        a < graph_nodes(*g).len(),
    ensures
        arcs_of(arcs@) == graph_in(*g)[a as int],
{
    g.edges_directed(petgraph::graph::NodeIndex::new(a), petgraph::Direction::Incoming)
        .map(|e| (petgraph::visit::EdgeRef::source(&e).index(), e.weight().clone()))
        .collect()
}

/// `Graph::neighbors`: the target index of each edge that leaves vertex `a`,
/// in walking order, once per edge.
#[verifier::external_body]
pub(crate) fn graph_neighbors(g: &RelationGraph, a: usize) -> (targets: Vec<usize>)
    requires
        a < graph_nodes(*g).len(),
    ensures
        targets@.len() == graph_out(*g)[a as int].len(),
        forall|k: int| 0 <= k < targets@.len() ==> targets@[k] as int == (#[trigger] graph_out(*g)[a as int][k]).0,
{
    g.neighbors(petgraph::graph::NodeIndex::new(a)).map(|n| n.index()).collect()
}

/// `Graph::contains_edge`: whether some edge leads from vertex `a` to vertex `b`.
#[verifier::external_body]
pub(crate) fn graph_contains_edge(g: &RelationGraph, a: usize, b: usize) -> (found: bool)
    requires
        a < graph_nodes(*g).len(),
        b < graph_nodes(*g).len(),
    ensures
        found == leads_to(graph_out(*g)[a as int], b as int),
{
    g.contains_edge(petgraph::graph::NodeIndex::new(a), petgraph::graph::NodeIndex::new(b))
}

/// The index of the first vertex that holds `handle`, by a linear search.
pub fn find_vertex(g: &RelationGraph, handle: u64) -> (found: Option<usize>)
    ensures
        match found {
            Some(i) => i < graph_nodes(*g).len() && graph_nodes(*g)[i as int] == handle
                && (view_of(*g).wf() ==> view_of(*g).vertex_of(handle) == Some(i as int)),
            None => view_of(*g).vertex_of(handle).is_none(),
        },
{
    let n = graph_node_count(g);
    let mut i: usize = 0;
    while i < n
        invariant
            n == graph_nodes(*g).len(),
            i <= n,
            forall|j: int| 0 <= j < i ==> graph_nodes(*g)[j] != handle,
        decreases n - i,
    {
        if graph_node_weight(g, i) == handle {
            proof {
                if view_of(*g).wf() {
                    let nodes = graph_nodes(*g);
                    assert(nodes.contains(handle));
                    assert(nodes[nodes.index_of(handle)] == handle);
                }
            }
            return Some(i);
        }
        i += 1;
    }
    None
}

/// Finds the vertex of `handle`, or adds one where there is none.
pub(crate) fn find_or_add_vertex(g: &mut RelationGraph, handle: u64) -> (i: usize)
    requires
        view_of(*old(g)).wf(),
        graph_nodes(*old(g)).len() < GRAPH_LIMIT,
    ensures
        view_of(*final(g)) == view_of(*old(g)).with_vertex(handle),
        view_of(*final(g)).wf(),
        view_of(*final(g)).vertex_of(handle) == Some(i as int),
        i < graph_nodes(*final(g)).len(),
        forall|label: Seq<char>| view_of(*old(g)).labelled(label) ==> #[trigger] view_of(*final(g)).labelled(label),
{
    match find_vertex(g, handle) {
        Some(i) => i,
        None => {
            let i = graph_add_node(g, handle);
            proof {
                let before = view_of(*old(g));
                let after = view_of(*g);
                assert(after.vertices[i as int] == handle);
                assert(after.vertices.contains(handle));
                assert(after.vertices.no_duplicates()) by {
                    assert forall|a: int, b: int|
                        0 <= a < after.vertices.len() && 0 <= b < after.vertices.len() && a != b
                        implies after.vertices[a] != after.vertices[b] by {
                        if a < before.vertices.len() {
                            assert(before.vertices.contains(before.vertices[a]));
                        }
                        if b < before.vertices.len() {
                            assert(before.vertices.contains(before.vertices[b]));
                        }
                    }
                }
                assert(after.vertices[after.vertices.index_of(handle)] == handle);
            }
            i
        },
    }
}

impl RelationView {
    /// Whether the graph can take `n` more edges with as many new targets and
    /// a new source.
    pub open spec fn has_room(self, n: nat) -> bool {
        &&& self.vertices.len() + n + 1 <= GRAPH_LIMIT
        &&& self.edge_count + n <= GRAPH_LIMIT
    }

    /// In a well-formed graph the vertex of a handle is the one index at which
    /// it stands.
    pub proof fn lemma_vertex_unique(self, i: int)
        requires
            self.wf(),
            0 <= i < self.vertices.len(),
        ensures
            self.vertices.contains(self.vertices[i]),
            self.vertices.index_of(self.vertices[i]) == i,
            self.vertex_of(self.vertices[i]) == Some(i),
    {
        let handle = self.vertices[i];
        assert(self.vertices.contains(handle));
        assert(self.vertices[self.vertices.index_of(handle)] == handle);
    }

    /// Where every edge carries `label`, it is so with one more such edge.
    pub proof fn lemma_with_edge_labelled(self, a: int, b: int, label: Seq<char>)
        requires
            self.wf(),
            self.labelled(label),
            0 <= a < self.vertices.len(),
            0 <= b < self.vertices.len(),
        ensures
            self.with_edge(a, b, label).labelled(label),
    {
        let after = self.with_edge(a, b, label);
        assert forall|i: int, k: int| 0 <= i < after.out.len() && 0 <= k < after.out[i].len() implies (
        #[trigger] after.out[i][k]).1 == label by {
            if i == a && k > 0 {
                assert(after.out[i][k] == self.out[a][k - 1]);
            }
        }
        assert forall|i: int, k: int| 0 <= i < after.inc.len() && 0 <= k < after.inc[i].len() implies (
        #[trigger] after.inc[i][k]).1 == label by {
            if i == b && k > 0 {
                assert(after.inc[i][k] == self.inc[b][k - 1]);
            }
        }
    }

    /// Adding an edge between two vertices keeps the graph well-formed.
    pub proof fn lemma_with_edge_wf(self, a: int, b: int, label: Seq<char>)
        requires
            self.wf(),
            0 <= a < self.vertices.len(),
            0 <= b < self.vertices.len(),
        ensures
            self.with_edge(a, b, label).wf(),
    {
        let after = self.with_edge(a, b, label);
        assert forall|i: int, k: int| 0 <= i < after.out.len() && 0 <= k < after.out[i].len() implies 0 <= (
        #[trigger] after.out[i][k]).0 < after.vertices.len() by {
            if i == a && k > 0 {
                assert(after.out[i][k] == self.out[a][k - 1]);
            }
        }
        assert forall|i: int, k: int| 0 <= i < after.inc.len() && 0 <= k < after.inc[i].len() implies 0 <= (
        #[trigger] after.inc[i][k]).0 < after.vertices.len() by {
            if i == b && k > 0 {
                assert(after.inc[i][k] == self.inc[b][k - 1]);
            }
        }
    }
}

/// Links the vertex of `source` to the vertex of each of `targets`, in order:
/// each end is found or created, and one edge is added per target, labelled
/// with `label`, whether or not such an edge is there already.
pub(crate) fn link(g: &mut RelationGraph, source: u64, targets: &Vec<u64>, label: &String)
    requires
        view_of(*old(g)).wf(),
        view_of(*old(g)).labelled(label@),
        view_of(*old(g)).has_room(targets@.len()),
    ensures
        view_of(*final(g)).wf(),
        view_of(*final(g)).labelled(label@),
        view_of(*final(g)) == view_of(*old(g)).with_edges(source, targets@, label@),
{
    let ghost start = view_of(*g);
    let from = find_or_add_vertex(g, source);
    let n = targets.len();
    let mut k: usize = 0;
    assert(targets@.take(0) =~= Seq::<u64>::empty());
    while k < n
        invariant
            n == targets@.len(),
            k <= n,
            view_of(*g).wf(),
            view_of(*g).labelled(label@),
            view_of(*g) == start.with_edges(source, targets@.take(k as int), label@),
            from < graph_nodes(*g).len(),
            graph_nodes(*g)[from as int] == source,
            graph_nodes(*g).len() + (n - k) <= GRAPH_LIMIT,
            graph_edge_count(*g) + (n - k) <= GRAPH_LIMIT,
        decreases n - k,
    {
        let ghost before = view_of(*g);
        let to = find_or_add_vertex(g, targets[k]);
        let ghost linked = view_of(*g);
        let text = label.clone();
        graph_add_edge(g, from, to, text);
        proof {
            assert(linked.vertices[from as int] == source);
            linked.lemma_vertex_unique(from as int);
            linked.lemma_vertex_unique(to as int);
            linked.lemma_with_edge_wf(from as int, to as int, label@);
            linked.lemma_with_edge_labelled(from as int, to as int, label@);
            let prefix = targets@.take(k as int + 1);
            assert(prefix.drop_last() =~= targets@.take(k as int));
            assert(prefix.last() == targets@[k as int]);
        }
        k += 1;
    }
    assert(targets@.take(n as int) =~= targets@);
}

impl RelationView {
    /// A new vertex changes no answer: every handle has the edges it had.
    pub proof fn lemma_with_vertex(self, handle: u64)
        requires
            self.wf(),
        ensures
            self.with_vertex(handle).wf(),
            self.with_vertex(handle).vertices.contains(handle),
            self.with_vertex(handle).edge_count == self.edge_count,
            forall|h: u64| self.vertices.contains(h) ==> #[trigger] self.with_vertex(handle).vertices.contains(h),
            forall|h: u64| #[trigger] self.with_vertex(handle).labels_from(h) == self.labels_from(h),
            forall|h: u64| #[trigger] self.with_vertex(handle).labels_into(h) == self.labels_into(h),
            forall|h: u64| #[trigger] self.with_vertex(handle).successors(h) == self.successors(h),
            forall|a: u64, b: u64| #[trigger] self.with_vertex(handle).has_edge(a, b) == self.has_edge(a, b),
    {
        let after = self.with_vertex(handle);
        if !self.vertices.contains(handle) {
            let n = self.vertices.len() as int;
            assert(after.vertices[n] == handle);
            assert(after.vertices.no_duplicates()) by {
                assert forall|a: int, b: int|
                    0 <= a < after.vertices.len() && 0 <= b < after.vertices.len() && a != b
                    implies after.vertices[a] != after.vertices[b] by {
                    if a < n {
                        assert(self.vertices.contains(self.vertices[a]));
                    }
                    if b < n {
                        assert(self.vertices.contains(self.vertices[b]));
                    }
                }
            }
            assert(after.wf());
            after.lemma_vertex_unique(n);
            assert forall|h: u64| self.vertices.contains(h) implies #[trigger] after.vertices.contains(h)
                && after.vertex_of(h) == self.vertex_of(h) by {
                let i = self.vertices.index_of(h);
                assert(self.vertices[i] == h);
                assert(after.vertices[i] == h);
                self.lemma_vertex_unique(i);
                after.lemma_vertex_unique(i);
            }
            assert forall|h: u64| !self.vertices.contains(h) && h != handle implies !after.vertices.contains(h) by {
                if after.vertices.contains(h) {
                    let i = after.vertices.index_of(h);
                    assert(after.vertices[i] == h);
                    assert(self.vertices[i] == h);
                }
            }
            assert forall|h: u64| #[trigger] after.labels_from(h) == self.labels_from(h) by {
                if h == handle {
                    assert(after.labels_from(h) =~= Seq::<Seq<char>>::empty());
                }
            }
            assert forall|h: u64| #[trigger] after.labels_into(h) == self.labels_into(h) by {
                if h == handle {
                    assert(after.labels_into(h) =~= Seq::<Seq<char>>::empty());
                }
            }
            assert forall|h: u64| #[trigger] after.successors(h) == self.successors(h) by {
                if h == handle {
                    assert(after.successors(h) =~= Seq::<u64>::empty());
                } else if self.vertices.contains(h) {
                    let i = self.vertices.index_of(h);
                    assert(self.vertices[i] == h);
                    assert(after.successors(h) =~= self.successors(h));
                }
            }
            assert forall|a: u64, b: u64| #[trigger] after.has_edge(a, b) == self.has_edge(a, b) by {
                if self.vertices.contains(a) && b == handle {
                    let i = self.vertices.index_of(a);
                    assert(self.vertices[i] == a);
                    assert(!leads_to(self.out[i], n));
                }
            }
        }
    }

    /// One more edge from the vertex of `from` to the vertex of `to` is the
    /// first that a walk from `from`, or into `to`, meets; every other answer
    /// stays as it was.
    pub proof fn lemma_with_edge(self, from: u64, to: u64, label: Seq<char>)
        requires
            self.wf(),
            self.vertices.contains(from),
            self.vertices.contains(to),
        ensures
            ({
                let after = self.with_edge(self.vertices.index_of(from), self.vertices.index_of(to), label);
                &&& after.wf()
                &&& after.vertices == self.vertices
                &&& after.edge_count == self.edge_count + 1
                &&& after.labels_from(from) == seq![label] + self.labels_from(from)
                &&& after.labels_into(to) == seq![label] + self.labels_into(to)
                &&& after.successors(from) == seq![to] + self.successors(from)
                &&& after.has_edge(from, to)
                &&& forall|h: u64| h != from ==> #[trigger] after.labels_from(h) == self.labels_from(h)
                &&& forall|h: u64| h != to ==> #[trigger] after.labels_into(h) == self.labels_into(h)
                &&& forall|h: u64| h != from ==> #[trigger] after.successors(h) == self.successors(h)
                &&& forall|a: u64, b: u64|
                    !(a == from && b == to) ==> #[trigger] after.has_edge(a, b) == self.has_edge(a, b)
            }),
    {
        let i = self.vertices.index_of(from);
        let j = self.vertices.index_of(to);
        assert(self.vertices[i] == from);
        assert(self.vertices[j] == to);
        let after = self.with_edge(i, j, label);
        self.lemma_with_edge_wf(i, j, label);
        assert(after.out[i] =~= seq![(j, label)] + self.out[i]);
        assert(after.inc[j] =~= seq![(i, label)] + self.inc[j]);
        assert(after.labels_from(from) =~= seq![label] + self.labels_from(from));
        assert(after.labels_into(to) =~= seq![label] + self.labels_into(to));
        assert(after.successors(from) =~= seq![to] + self.successors(from)) by {
            assert forall|k: int| 0 <= k < after.out[i].len() implies after.successors(from)[k] == (seq![to]
                + self.successors(from))[k] by {
                if k > 0 {
                    assert(after.out[i][k] == self.out[i][k - 1]);
                }
            }
        }
        assert(after.out[i][0].0 == j);
        assert(leads_to(after.out[i], j));
        assert forall|h: u64| h != from implies #[trigger] after.labels_from(h) == self.labels_from(h) by {
            if self.vertices.contains(h) {
                assert(self.vertices[self.vertices.index_of(h)] == h);
            }
        }
        assert forall|h: u64| h != to implies #[trigger] after.labels_into(h) == self.labels_into(h) by {
            if self.vertices.contains(h) {
                assert(self.vertices[self.vertices.index_of(h)] == h);
            }
        }
        assert forall|h: u64| h != from implies #[trigger] after.successors(h) == self.successors(h) by {
            if self.vertices.contains(h) {
                assert(self.vertices[self.vertices.index_of(h)] == h);
            }
        }
        assert forall|a: u64, b: u64| !(a == from && b == to) implies #[trigger] after.has_edge(a, b)
            == self.has_edge(a, b) by {
            if self.vertices.contains(a) && self.vertices.contains(b) {
                let x = self.vertices.index_of(a);
                let y = self.vertices.index_of(b);
                assert(self.vertices[x] == a);
                assert(self.vertices[y] == b);
                if x == i {
                    assert(y != j);
                    if leads_to(after.out[i], y) {
                        let k = choose|k: int| 0 <= k < after.out[i].len() && (#[trigger] after.out[i][k]).0 == y;
                        assert(k > 0);
                        assert(self.out[i][k - 1].0 == y);
                    }
                    if leads_to(self.out[i], y) {
                        let k = choose|k: int| 0 <= k < self.out[i].len() && (#[trigger] self.out[i][k]).0 == y;
                        assert(after.out[i][k + 1].0 == y);
                    }
                }
            }
        }
    }

    /// Linking `source` to one `target` adds exactly one edge, beside any
    /// that leads there already: it is the first that the walks from `source`
    /// and into `target` meet, `target` is the first successor of `source`,
    /// and no other pair of handles is linked that was not.
    pub proof fn lemma_link_one(self, source: u64, target: u64, label: Seq<char>)
        requires
            self.wf(),
        ensures
            ({
                let linked = self.with_edges(source, seq![target], label);
                &&& linked.wf()
                &&& linked.edge_count == self.edge_count + 1
                &&& linked.labels_from(source) == seq![label] + self.labels_from(source)
                &&& linked.labels_into(target) == seq![label] + self.labels_into(target)
                &&& linked.successors(source) == seq![target] + self.successors(source)
                &&& linked.has_edge(source, target)
                &&& forall|a: u64, b: u64|
                    !(a == source && b == target) ==> #[trigger] linked.has_edge(a, b) == self.has_edge(a, b)
            }),
    {
        let targets = seq![target];
        assert(targets.drop_last() =~= Seq::<u64>::empty());
        assert(targets.last() == target);
        let first = self.with_vertex(source);
        assert(self.with_edges(source, targets.drop_last(), label) == first);
        self.lemma_with_vertex(source);
        let both = first.with_vertex(target);
        first.lemma_with_vertex(target);
        both.lemma_with_edge(source, target, label);
    }
}

} // verus!
