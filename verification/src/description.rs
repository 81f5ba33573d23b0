//! Named nodes, the relation graphs between them, and the queries on both.

use crate::anymap::AnyMap;
use crate::digraph::{
    find_vertex, graph_contains_edge, graph_edge_total, graph_incoming, graph_neighbors, graph_new,
    graph_node_count, graph_node_weight, graph_outgoing, link, view_of, RelationGraph, RelationView,
    GRAPH_LIMIT,
};
use crate::table::{
    contains_text, count_of, first_occurrences, lemma_count_of_concat, lemma_count_of_uniform,
    lemma_first_occurrences, texts, NameTable,
};
use std::any::TypeId;
use vstd::prelude::*;

verus! {

/// Why a node or an edge was refused, or a query failed.
#[derive(Debug)]
pub enum Error {
    /// No node has this name.
    NodeNotFound { name: String },
    /// An empty node name, or a component type that the node has already.
    InvalidParameters,
    /// An empty relation name.
    InvalidEdgeName,
    /// The shared component registry could not be locked.
    AccessComponentRegistry,
}

impl Error {
    /// The text of the message for this error.
    pub open spec fn spec_message(self) -> Seq<char> {
        match self {
            Error::NodeNotFound { name } => "Node '"@ + name@ + "' not found"@,
            Error::InvalidParameters => "Invalid parameters"@,
            Error::InvalidEdgeName => "Invalid edge name"@,
            Error::AccessComponentRegistry => "Failed to access component registry"@,
        }
    }

    /// The message for this error.
    pub fn message(&self) -> (text: String)
        ensures
            text@ == self.spec_message(),
    {
        match self {
            Error::NodeNotFound { name } => {
                let mut text = "Node '".to_owned();
                text.append(name.as_str());
                text.append("' not found");
                text
            },
            Error::InvalidParameters => "Invalid parameters".to_owned(),
            Error::InvalidEdgeName => "Invalid edge name".to_owned(),
            Error::AccessComponentRegistry => "Failed to access component registry".to_owned(),
        }
    }

    /// Whether this is `NodeNotFound` for the node called `name`.
    pub open spec fn is_missing(self, name: Seq<char>) -> bool {
        match self {
            Error::NodeNotFound { name: missing } => missing@ == name,
            _ => false,
        }
    }
}

/// The handle that `nodes` gives for `name`, if it holds the name.
pub open spec fn resolve(nodes: NameTable<u64>, name: Seq<char>) -> Option<u64> {
    match nodes.position(name) {
        Some(i) => Some(nodes.values()[i]),
        None => None,
    }
}

/// The handle of each of `names`, for names that `nodes` holds.
pub open spec fn handles_of(nodes: NameTable<u64>, names: Seq<Seq<char>>) -> Seq<u64> {
    Seq::new(names.len(), |i: int| resolve(nodes, names[i]).unwrap())
}

/// Whether `nodes` holds every one of `names`.
pub open spec fn all_known(nodes: NameTable<u64>, names: Seq<Seq<char>>) -> bool {
    forall|i: int| 0 <= i < names.len() ==> (#[trigger] resolve(nodes, names[i])).is_some()
}

/// Whether `names[i]` is the first of `names` that `nodes` does not hold.
pub open spec fn first_unknown(nodes: NameTable<u64>, names: Seq<Seq<char>>, i: int) -> bool {
    &&& 0 <= i < names.len()
    &&& resolve(nodes, names[i]).is_none()
    &&& all_known(nodes, names.take(i))
}

/// Looks `name` up in `nodes`.
pub fn lookup(nodes: &NameTable<u64>, name: &String) -> (found: Option<u64>)
    requires
        nodes.wf(),
    ensures
        found == resolve(*nodes, name@),
{
    match nodes.find(name) {
        Some(i) => Some(*nodes.value_at(i)),
        None => None,
    }
}

/// The relation graphs, each under its relation's name.
#[derive(Debug)]
pub struct GraphContainer {
    graphs: NameTable<RelationGraph>,
}

impl GraphContainer {
    /// The relation names, in the order in which their first edge was added.
    pub closed spec fn names(&self) -> Seq<Seq<char>> {
        self.graphs.names()
    }

    /// What each relation graph holds, in the order of `names`.
    pub closed spec fn relations(&self) -> Seq<RelationView> {
        Seq::new(self.graphs.values().len(), |i: int| view_of(self.graphs.values()[i]))
    }

    /// No relation name occurs twice, every graph is well-formed, and every
    /// edge of a relation's graph carries the relation's name.
    pub closed spec fn wf(&self) -> bool {
        &&& self.graphs.wf()
        &&& forall|i: int|
            0 <= i < self.graphs.values().len() ==> (#[trigger] view_of(self.graphs.values()[i])).wf() && view_of(
                self.graphs.values()[i],
            ).labelled(self.graphs.names()[i])
    }

    /// What the graph of `relation` holds: nothing if no edge was added under
    /// that name yet.
    pub open spec fn relation(&self, relation: Seq<char>) -> RelationView {
        if self.names().contains(relation) {
            self.relations()[self.names().index_of(relation)]
        } else {
            RelationView::empty()
        }
    }

    /// The relation names once `relation` has a graph: it comes last where
    /// it is new.
    pub open spec fn names_with(&self, relation: Seq<char>) -> Seq<Seq<char>> {
        if self.names().contains(relation) {
            self.names()
        } else {
            self.names().push(relation)
        }
    }

    /// What the relation graphs hold once that of `relation` holds `graph`.
    pub open spec fn relations_with(&self, relation: Seq<char>, graph: RelationView) -> Seq<RelationView> {
        if self.names().contains(relation) {
            self.relations().update(self.names().index_of(relation), graph)
        } else {
            self.relations().push(graph)
        }
    }

    /// In a well-formed container there is one graph per name, each of them
    /// well-formed, with every edge labelled by the relation's name.
    pub proof fn lemma_wf(&self)
        requires
            self.wf(),
        ensures
            self.names().no_duplicates(),
            self.names().len() == self.relations().len(),
            forall|i: int| 0 <= i < self.relations().len() ==> (#[trigger] self.relations()[i]).wf(),
            forall|i: int| 0 <= i < self.relations().len() ==> (#[trigger] self.relations()[i]).labelled(self.names()[i]),
    {
        assert forall|i: int| 0 <= i < self.relations().len() implies (#[trigger] self.relations()[i]).wf()
            && self.relations()[i].labelled(self.names()[i]) by {
            assert(view_of(self.graphs.values()[i]).wf());
        }
    }

    /// Of the labels that leave or enter the node of `handle`, those that are
    /// the name of a relation are as many as that relation's graph has such
    /// edges, and no label is anything but the name of a relation.
    pub proof fn lemma_labels_by_relation(&self, handle: u64, text: Seq<char>)
        requires
            self.wf(),
        ensures
            count_of(labels_leaving(self.relations(), handle), text) == self.relation(text).labels_from(handle).len(),
            count_of(labels_entering(self.relations(), handle), text) == self.relation(text).labels_into(
                handle,
            ).len(),
    {
        self.lemma_wf();
        lemma_label_counts(self.names(), self.relations(), handle, text);
        if !self.names().contains(text) {
            assert(RelationView::empty().labels_from(handle) =~= Seq::<Seq<char>>::empty());
            assert(RelationView::empty().labels_into(handle) =~= Seq::<Seq<char>>::empty());
        }
    }

    pub fn new() -> (container: Self)
        ensures
            container.wf(),
            container.names() == Seq::<Seq<char>>::empty(),
            container.relations() == Seq::<RelationView>::empty(),
    {
        let container = GraphContainer { graphs: NameTable::new() };
        assert(container.relations() =~= Seq::<RelationView>::empty());
        container
    }

    /// The number of relation graphs.
    pub fn len(&self) -> (n: usize)
        ensures
            n == self.names().len(),
            n == self.relations().len(),
    {
        self.graphs.len()
    }

    /// The relation names, in the order in which their first edge was added.
    pub fn relation_names(&self) -> (names: Vec<String>)
        ensures
            texts(names@) == self.names(),
    {
        self.graphs.name_list()
    }

    /// The graph at position `i`, in the order of `names`.
    pub fn graph_at(&self, i: usize) -> (g: &RelationGraph)
        requires
            i < self.relations().len(),
        ensures
            view_of(*g) == self.relations()[i as int],
    {
        self.graphs.value_at(i)
    }

    /// Whether a graph exists for the relation `name`.
    pub fn contains_key(&self, name: &str) -> (found: bool)
        ensures
            found == self.names().contains(name@),
    {
        let key = name.to_owned();
        self.graphs.find(&key).is_some()
    }

    /// Whether `relation`'s graph can take `n` more edges: a graph indexed by
    /// `u32` is full at `GRAPH_LIMIT` vertices or edges.
    pub fn has_room(&self, relation: &str, n: usize) -> (roomy: bool)
        requires
            self.wf(),
        ensures
            roomy == self.relation(relation@).has_room(n as nat),
    {
        let key = relation.to_owned();
        match self.graphs.find(&key) {
            Some(i) => {
                let g = self.graphs.value_at(i);
                let nodes = graph_node_count(g);
                let edges = graph_edge_total(g);
                n < GRAPH_LIMIT && nodes <= GRAPH_LIMIT - n - 1 && edges <= GRAPH_LIMIT - n
            },
            None => n < GRAPH_LIMIT,
        }
    }

    /// Adds one edge from `source` to each of `targets` in the graph of the
    /// relation `edge_name`, which is created on its first edge. The names
    /// are resolved through `node_indices` first, the source before the
    /// targets: the first one that is missing is reported, and nothing
    /// changes. Each edge is labelled with the relation's name; edges are
    /// never merged.
    pub fn add_edge(
        &mut self,
        edge_name: String,
        source: String,
        node_indices: &NameTable<u64>,
        targets: Vec<String>,
    ) -> (result: Result<(), Error>)
        requires
            old(self).wf(),
            node_indices.wf(),
            old(self).relation(edge_name@).has_room(targets@.len()),
        ensures
            final(self).wf(),
            match result {
                Ok(()) => {
                    &&& all_known(*node_indices, seq![source@] + texts(targets@))
                    &&& final(self).names() == old(self).names_with(edge_name@)
                    &&& final(self).relations() == old(self).relations_with(
                        edge_name@,
                        old(self).relation(edge_name@).with_edges(
                            resolve(*node_indices, source@).unwrap(),
                            handles_of(*node_indices, texts(targets@)),
                            edge_name@,
                        ),
                    )
                },
                Err(e) => {
                    &&& exists|i: int| #[trigger]
                        first_unknown(*node_indices, seq![source@] + texts(targets@), i) && e.is_missing(
                            (seq![source@] + texts(targets@))[i],
                        )
                    &&& final(self).names() == old(self).names()
                    &&& final(self).relations() == old(self).relations()
                },
            },
    {
        let ghost wanted = seq![source@] + texts(targets@);
        let from = match lookup(node_indices, &source) {
            Some(handle) => handle,
            None => {
                proof {
                    assert(wanted.take(0) =~= Seq::<Seq<char>>::empty());
                    assert(first_unknown(*node_indices, wanted, 0));
                }
                return Err(Error::NodeNotFound { name: source });
            },
        };
        let mut handles: Vec<u64> = Vec::new();
        let mut k: usize = 0;
        while k < targets.len()
            invariant
                self.wf(),
                self.names() == old(self).names(),
                self.relations() == old(self).relations(),
                node_indices.wf(),
                wanted == seq![source@] + texts(targets@),
                k <= targets@.len(),
                handles@.len() == k,
                all_known(*node_indices, wanted.take(k as int + 1)),
                forall|j: int| 0 <= j < k ==> handles@[j] == resolve(*node_indices, targets@[j]@).unwrap(),
            decreases targets@.len() - k,
        {
            assert(wanted[k as int + 1] == targets@[k as int]@);
            match lookup(node_indices, &targets[k]) {
                Some(handle) => {
                    handles.push(handle);
                    proof {
                        let longer = wanted.take(k as int + 2);
                        assert forall|i: int| 0 <= i < longer.len() implies (#[trigger] resolve(
                            *node_indices,
                            longer[i],
                        )).is_some() by {
                            if i <= k {
                                assert(longer[i] == wanted.take(k as int + 1)[i]);
                            }
                        }
                    }
                },
                None => {
                    proof {
                        assert(first_unknown(*node_indices, wanted, k as int + 1));
                    }
                    return Err(Error::NodeNotFound { name: targets[k].clone() });
                },
            }
            k += 1;
        }
        proof {
            assert(wanted.take(targets@.len() as int + 1) =~= wanted);
            assert(handles@ =~= handles_of(*node_indices, texts(targets@)));
        }
        let at = match self.graphs.find(&edge_name) {
            Some(at) => at,
            None => {
                let fresh = graph_new();
                self.graphs.insert(edge_name.clone(), fresh)
            },
        };
        let ghost before = self.graphs.values();
        assert(view_of(before[at as int]) == old(self).relation(edge_name@));
        let g = self.graphs.value_at_mut(at);
        link(g, from, &handles, &edge_name);
        proof {
            assert(self.relations() =~= old(self).relations_with(
                edge_name@,
                old(self).relation(edge_name@).with_edges(from, handles@, edge_name@),
            ));
        }
        Ok(())
    }
}

/// The characters of each string slice of a sequence.
pub open spec fn slices(items: Seq<&str>) -> Seq<Seq<char>> {
    Seq::new(items.len(), |i: int| items[i]@)
}

/// Collects nodes and edges, and is then frozen into a [`Description`].
pub struct DescriptionBuilder {
    node_name_to_entity: NameTable<u64>,
    graphs: GraphContainer,
    node_component_types: NameTable<AnyMap<()>>,
    entities: Vec<TypeId>,
}

impl DescriptionBuilder {
    /// The handle of each named node.
    pub closed spec fn nodes(&self) -> NameTable<u64> {
        self.node_name_to_entity
    }

    /// The relation graphs.
    pub closed spec fn graphs(&self) -> GraphContainer {
        self.graphs
    }

    /// The component types recorded for the node called `name`.
    pub closed spec fn component_types(&self, name: Seq<char>) -> Set<TypeId> {
        match self.node_component_types.position(name) {
            Some(i) => self.node_component_types.values()[i]@.dom(),
            None => Set::empty(),
        }
    }

    /// How many handles were given out; the next node gets this number.
    pub closed spec fn issued(&self) -> nat {
        self.entities@.len()
    }

    /// The component type that each entity was created with, by handle.
    pub closed spec fn bundle_types(&self) -> Seq<TypeId> {
        self.entities@
    }

    /// The tables are well-formed and every handle in use was given out.
    pub closed spec fn wf(&self) -> bool {
        &&& self.node_name_to_entity.wf()
        &&& self.graphs.wf()
        &&& self.node_component_types.wf()
        &&& forall|i: int|
            0 <= i < self.node_component_types.values().len() ==> (
            #[trigger] self.node_component_types.values()[i]).wf()
        &&& forall|i: int|
            0 <= i < self.node_name_to_entity.values().len() ==> (
            #[trigger] self.node_name_to_entity.values()[i]) < self.entities@.len()
        &&& self.node_name_to_entity.values().no_duplicates()
    }

    /// Whether a node called `name` with a component of `component_type` is
    /// accepted: the name is not empty, and the node has no component of that
    /// type yet.
    pub open spec fn accepts(&self, name: Seq<char>, component_type: TypeId) -> bool {
        name.len() > 0 && !self.component_types(name).contains(component_type)
    }

    /// Whether this builder is `before` with one more node: called `name`,
    /// with a component of `component_type`, under the fresh handle `handle`.
    pub open spec fn follows(&self, before: Self, name: Seq<char>, component_type: TypeId, handle: u64) -> bool {
        &&& handle == before.issued()
        &&& self.issued() == before.issued() + 1
        &&& self.bundle_types() == before.bundle_types().push(component_type)
        &&& resolve(self.nodes(), name) == Some(handle)
        &&& forall|other: Seq<char>| other != name ==> #[trigger] resolve(self.nodes(), other) == resolve(before.nodes(), other)
        &&& self.component_types(name) == before.component_types(name).insert(component_type)
        &&& forall|other: Seq<char>| other != name ==> #[trigger] self.component_types(other) == before.component_types(other)
        &&& self.graphs() == before.graphs()
    }

    /// Once a node has a component of a type, a second component of that
    /// type is refused on it, while any other type is accepted as it was
    /// before, on this node and on every other. An empty name is never
    /// accepted.
    pub proof fn lemma_one_component_per_type(&self, before: Self, name: Seq<char>, component_type: TypeId, handle: u64)
        requires
            self.follows(before, name, component_type, handle),
        ensures
            !self.accepts(name, component_type),
            forall|other: TypeId| other != component_type ==> #[trigger] self.accepts(name, other) == before.accepts(name, other),
            forall|elsewhere: Seq<char>, any: TypeId|
                elsewhere != name ==> #[trigger] self.accepts(elsewhere, any) == before.accepts(elsewhere, any),
            forall|any: TypeId| !#[trigger] self.accepts(Seq::empty(), any),
    {
    }

    /// In every state of a builder the handles in use are among those given
    /// out, and no two names have the same handle: a handle is never reused.
    pub proof fn lemma_handles_are_distinct(&self)
        requires
            self.wf(),
        ensures
            self.nodes().wf(),
            self.graphs().wf(),
            forall|i: int| 0 <= i < self.nodes().values().len() ==> (#[trigger] self.nodes().values()[i]) < self.issued(),
            self.nodes().values().no_duplicates(),
    {
    }

    pub fn new() -> (builder: Self)
        ensures
            builder.wf(),
            builder.issued() == 0,
            builder.bundle_types() == Seq::<TypeId>::empty(),
            builder.nodes().names() == Seq::<Seq<char>>::empty(),
            builder.nodes().values() == Seq::<u64>::empty(),
            builder.graphs().names() == Seq::<Seq<char>>::empty(),
            builder.graphs().relations() == Seq::<RelationView>::empty(),
            forall|name: Seq<char>| (#[trigger] builder.component_types(name)) == Set::<TypeId>::empty(),
    {
        DescriptionBuilder {
            node_name_to_entity: NameTable::new(),
            graphs: GraphContainer::new(),
            node_component_types: NameTable::new(),
            entities: Vec::new(),
        }
    }

    /// Whether the graph of the relation `edge_name` can take `n` more edges.
    pub fn has_room(&self, edge_name: &str, n: usize) -> (roomy: bool)
        requires
            self.wf(),
        ensures
            roomy == self.graphs().relation(edge_name@).has_room(n as nat),
    {
        self.graphs.has_room(edge_name, n)
    }

    /// Records a component of `component_type` on the node called `name` and
    /// creates its entity, whose handle is returned: the number of entities
    /// created before. An empty name and a component type that the node has
    /// already are refused, and nothing changes. A name that is in use is
    /// bound to the new handle.
    pub fn add_node(&mut self, name: String, component_type: TypeId) -> (result: Result<u64, Error>)
        requires
            old(self).wf(),
        ensures
            final(self).wf(),
            match result {
                Ok(handle) => old(self).accepts(name@, component_type) && final(self).follows(
                    *old(self),
                    name@,
                    component_type,
                    handle,
                ),
                Err(e) => {
                    &&& !old(self).accepts(name@, component_type)
                    &&& e is InvalidParameters
                    &&& *final(self) == *old(self)
                },
            },
    {
        if name.as_str().is_empty() {
            return Err(Error::InvalidParameters);
        }
        let ghost types_before = self.node_component_types;
        match self.node_component_types.find(&name) {
            Some(i) => {
                if self.node_component_types.value_at(i).find(component_type).is_some() {
                    return Err(Error::InvalidParameters);
                }
                let bag = self.node_component_types.value_at_mut(i);
                bag.insert(component_type, ());
                proof {
                    let after = self.node_component_types;
                    assert(after.values()[i as int]@.dom() =~= types_before.values()[i as int]@.dom().insert(
                        component_type,
                    ));
                    after.lemma_position_unique(i as int);
                    assert forall|other: Seq<char>| other != name@ implies #[trigger] self.component_types(other)
                        == old(self).component_types(other) by {
                        after.lemma_position_holds(other);
                        types_before.lemma_position_holds(other);
                    }
                }
            },
            None => {
                let mut bag: AnyMap<()> = AnyMap::new();
                bag.insert(component_type, ());
                let ghost at = self.node_component_types.names().len() as int;
                self.node_component_types.push(name.clone(), bag);
                proof {
                    let after = self.node_component_types;
                    after.lemma_position_unique(at);
                    assert(after.values()[at]@.dom() =~= Set::<TypeId>::empty().insert(component_type));
                    assert forall|other: Seq<char>| other != name@ implies #[trigger] self.component_types(other)
                        == old(self).component_types(other) by {
                        after.lemma_position_elsewhere(types_before, other);
                        after.lemma_position_holds(other);
                        types_before.lemma_position_holds(other);
                    }
                }
            },
        }
        let ghost recorded = *self;
        self.entities.push(component_type);
        let count = self.entities.len();
        let handle = (count - 1) as u64;
        let ghost nodes_before = self.node_name_to_entity;
        let _ = self.node_name_to_entity.insert(name, handle);
        proof {
            let after = self.node_name_to_entity;
            assert forall|a: int, b: int|
                0 <= a < after.values().len() && 0 <= b < after.values().len() && a != b
                implies after.values()[a] != after.values()[b] by {
                nodes_before.lemma_position_holds(name@);
                if after.values()[a] != handle {
                    assert(after.values()[a] == nodes_before.values()[a]);
                }
                if after.values()[b] != handle {
                    assert(after.values()[b] == nodes_before.values()[b]);
                }
            }
            assert forall|other: Seq<char>| other != name@ implies #[trigger] resolve(after, other) == resolve(
                nodes_before,
                other,
            ) by {
                after.lemma_position_elsewhere(nodes_before, other);
                after.lemma_position_holds(other);
                after.lemma_position_holds(name@);
            }
            assert forall|other: Seq<char>| other != name@ implies #[trigger] self.component_types(other) == old(
                self,
            ).component_types(other) by {
                assert(self.component_types(other) == recorded.component_types(other));
            }
        }
        Ok(handle)
    }

    /// Adds one edge from `source_name` to each of `target_names` in the
    /// relation `edge_name`. An empty relation name is refused, then the first
    /// name that is no node, the source before the targets; nothing changes
    /// then.
    pub fn add_edge(&mut self, edge_name: &str, source_name: &str, target_names: Vec<&str>) -> (result: Result<
        (),
        Error,
    >)
        requires
            old(self).wf(),
            old(self).graphs().relation(edge_name@).has_room(target_names@.len()),
        ensures
            final(self).wf(),
            final(self).nodes() == old(self).nodes(),
            final(self).issued() == old(self).issued(),
            forall|name: Seq<char>| #[trigger] final(self).component_types(name) == old(self).component_types(name),
            match result {
                Ok(()) => {
                    &&& edge_name@.len() > 0
                    &&& all_known(old(self).nodes(), seq![source_name@] + slices(target_names@))
                    &&& final(self).graphs().names() == old(self).graphs().names_with(edge_name@)
                    &&& final(self).graphs().relations() == old(self).graphs().relations_with(
                        edge_name@,
                        old(self).graphs().relation(edge_name@).with_edges(
                            resolve(old(self).nodes(), source_name@).unwrap(),
                            handles_of(old(self).nodes(), slices(target_names@)),
                            edge_name@,
                        ),
                    )
                },
                Err(e) => {
                    &&& final(self).graphs().names() == old(self).graphs().names()
                    &&& final(self).graphs().relations() == old(self).graphs().relations()
                    &&& if edge_name@.len() == 0 {
                        e is InvalidEdgeName
                    } else {
                        exists|i: int| #[trigger]
                            first_unknown(old(self).nodes(), seq![source_name@] + slices(target_names@), i)
                                && e.is_missing((seq![source_name@] + slices(target_names@))[i])
                    }
                },
            },
    {
        if edge_name.is_empty() {
            return Err(Error::InvalidEdgeName);
        }
        let mut targets: Vec<String> = Vec::new();
        let mut k: usize = 0;
        while k < target_names.len()
            invariant
                k <= target_names@.len(),
                targets@.len() == k,
                forall|j: int| 0 <= j < k ==> (#[trigger] targets@[j])@ == target_names@[j]@,
            decreases target_names@.len() - k,
        {
            targets.push(target_names[k].to_owned());
            k += 1;
        }
        assert(texts(targets@) =~= slices(target_names@));
        self.graphs.add_edge(edge_name.to_owned(), source_name.to_owned(), &self.node_name_to_entity, targets)
    }

    /// Freezes the builder into a description.
    pub fn build(self) -> (description: Description)
        requires
            self.wf(),
        ensures
            description.wf(),
            description.node_name_to_entity == self.nodes(),
            description.graphs == self.graphs(),
    {
        Description { node_name_to_entity: self.node_name_to_entity, graphs: self.graphs }
    }
}

/// The frozen store: the handle of each node, and the relation graphs.
#[derive(Debug)]
pub struct Description {
    pub node_name_to_entity: NameTable<u64>,
    pub graphs: GraphContainer,
}

/// The labels of the edges that leave the vertex of `handle`, graph by graph.
pub open spec fn labels_leaving(relations: Seq<RelationView>, handle: u64) -> Seq<Seq<char>>
    decreases relations.len(),
{
    if relations.len() == 0 {
        Seq::empty()
    } else {
        labels_leaving(relations.drop_last(), handle) + relations.last().labels_from(handle)
    }
}

/// The labels of the edges that enter the vertex of `handle`, graph by graph.
pub open spec fn labels_entering(relations: Seq<RelationView>, handle: u64) -> Seq<Seq<char>>
    decreases relations.len(),
{
    if relations.len() == 0 {
        Seq::empty()
    } else {
        labels_entering(relations.drop_last(), handle) + relations.last().labels_into(handle)
    }
}

/// Whether position `j` is the first at which `nodes` holds `handle`.
pub open spec fn is_first_holder(nodes: NameTable<u64>, handle: u64, j: int) -> bool {
    &&& 0 <= j < nodes.values().len()
    &&& nodes.values()[j] == handle
    &&& forall|i: int| 0 <= i < j ==> nodes.values()[i] != handle
}

/// The first name that `nodes` binds to `handle`, if any.
pub open spec fn holder(nodes: NameTable<u64>, handle: u64) -> Option<Seq<char>> {
    if exists|j: int| is_first_holder(nodes, handle, j) {
        Some(nodes.names()[choose|j: int| is_first_holder(nodes, handle, j)])
    } else {
        None
    }
}

/// The names of those of `handles` that `nodes` binds a name to, in order.
pub open spec fn names_of(nodes: NameTable<u64>, handles: Seq<u64>) -> Seq<Seq<char>>
    decreases handles.len(),
{
    if handles.len() == 0 {
        Seq::empty()
    } else {
        let rest = names_of(nodes, handles.drop_last());
        match holder(nodes, handles.last()) {
            Some(name) => rest.push(name),
            None => rest,
        }
    }
}

/// The names of the nodes at the far end of the edges that leave the vertex
/// of `handle`, graph by graph and one per edge.
pub open spec fn neighbours(relations: Seq<RelationView>, nodes: NameTable<u64>, handle: u64) -> Seq<Seq<char>>
    decreases relations.len(),
{
    if relations.len() == 0 {
        Seq::empty()
    } else {
        neighbours(relations.drop_last(), nodes, handle) + names_of(nodes, relations.last().successors(handle))
    }
}

/// Whether some relation graph has an edge from the vertex of `from` to the
/// vertex of `to`.
pub open spec fn directly_linked(relations: Seq<RelationView>, from: u64, to: u64) -> bool {
    exists|i: int| 0 <= i < relations.len() && (#[trigger] relations[i]).has_edge(from, to)
}

/// Whether some edge of some relation leads from the vertex of `from` to a
/// vertex whose handle has the name `name`.
pub open spec fn names_a_neighbour(
    relations: Seq<RelationView>,
    nodes: NameTable<u64>,
    from: u64,
    name: Seq<char>,
) -> bool {
    exists|i: int, k: int|
        0 <= i < relations.len() && 0 <= k < relations[i].successors(from).len() && holder(
            nodes,
            #[trigger] relations[i].successors(from)[k],
        ) == Some(name)
}

/// The names of `handles` are the names of each of them that has one.
proof fn lemma_names_of_members(nodes: NameTable<u64>, handles: Seq<u64>, name: Seq<char>)
    ensures
        names_of(nodes, handles).contains(name) <==> exists|k: int|
            0 <= k < handles.len() && holder(nodes, #[trigger] handles[k]) == Some(name),
    decreases handles.len(),
{
    if handles.len() > 0 {
        let front = handles.drop_last();
        let rest = names_of(nodes, front);
        let all = names_of(nodes, handles);
        lemma_names_of_members(nodes, front, name);
        if all.contains(name) {
            let i = choose|i: int| 0 <= i < all.len() && all[i] == name;
            if i < rest.len() {
                assert(rest[i] == name);
                assert(rest.contains(name));
                let k = choose|k: int| 0 <= k < front.len() && holder(nodes, #[trigger] front[k]) == Some(name);
                assert(handles[k] == front[k]);
            } else {
                assert(holder(nodes, handles[handles.len() - 1]) == Some(name));
            }
        }
        if exists|k: int| 0 <= k < handles.len() && holder(nodes, #[trigger] handles[k]) == Some(name) {
            let k = choose|k: int| 0 <= k < handles.len() && holder(nodes, #[trigger] handles[k]) == Some(name);
            if k < front.len() {
                assert(front[k] == handles[k]);
                assert(rest.contains(name));
                let i = choose|i: int| 0 <= i < rest.len() && rest[i] == name;
                assert(all[i] == name);
            } else {
                assert(all[rest.len() as int] == name);
            }
        }
    }
}

/// The walk of `neighbours` meets exactly the names of neighbours.
proof fn lemma_neighbours_members(relations: Seq<RelationView>, nodes: NameTable<u64>, from: u64, name: Seq<char>)
    ensures
        neighbours(relations, nodes, from).contains(name) <==> names_a_neighbour(relations, nodes, from, name),
    decreases relations.len(),
{
    if relations.len() > 0 {
        let n = relations.len() - 1;
        let front = relations.drop_last();
        let before = neighbours(front, nodes, from);
        let here = names_of(nodes, relations.last().successors(from));
        let all = neighbours(relations, nodes, from);
        lemma_neighbours_members(front, nodes, from, name);
        lemma_names_of_members(nodes, relations.last().successors(from), name);
        assert(relations[n] == relations.last());
        if all.contains(name) {
            let x = choose|x: int| 0 <= x < all.len() && all[x] == name;
            if x < before.len() {
                assert(before[x] == name);
                assert(before.contains(name));
                let (i, k) = choose|i: int, k: int|
                    0 <= i < front.len() && 0 <= k < front[i].successors(from).len() && holder(
                        nodes,
                        #[trigger] front[i].successors(from)[k],
                    ) == Some(name);
                assert(front[i] == relations[i]);
                assert(holder(nodes, relations[i].successors(from)[k]) == Some(name));
            } else {
                assert(here[x - before.len()] == name);
                assert(here.contains(name));
                let k = choose|k: int|
                    0 <= k < relations.last().successors(from).len() && holder(
                        nodes,
                        #[trigger] relations.last().successors(from)[k],
                    ) == Some(name);
                assert(holder(nodes, relations[n].successors(from)[k]) == Some(name));
            }
        }
        if names_a_neighbour(relations, nodes, from, name) {
            let (i, k) = choose|i: int, k: int|
                0 <= i < relations.len() && 0 <= k < relations[i].successors(from).len() && holder(
                    nodes,
                    #[trigger] relations[i].successors(from)[k],
                ) == Some(name);
            if i < n {
                assert(front[i] == relations[i]);
                assert(holder(nodes, front[i].successors(from)[k]) == Some(name));
                assert(names_a_neighbour(front, nodes, from, name));
                let x = choose|x: int| 0 <= x < before.len() && before[x] == name;
                assert(all[x] == name);
            } else {
                assert(holder(nodes, relations.last().successors(from)[k]) == Some(name));
                assert(here.contains(name));
                let y = choose|y: int| 0 <= y < here.len() && here[y] == name;
                assert(all[before.len() + y] == name);
            }
        }
    } else {
        assert(!neighbours(relations, nodes, from).contains(name));
    }
}

/// What `connected_nodes` gives is a union: it names every neighbour, names
/// nothing else, and names nothing twice.
pub proof fn lemma_connected_is_union(relations: Seq<RelationView>, nodes: NameTable<u64>, from: u64)
    ensures
        first_occurrences(neighbours(relations, nodes, from)).no_duplicates(),
        forall|name: Seq<char>| #[trigger]
            first_occurrences(neighbours(relations, nodes, from)).contains(name) <==> names_a_neighbour(
                relations,
                nodes,
                from,
                name,
            ),
{
    lemma_first_occurrences(neighbours(relations, nodes, from));
    assert forall|name: Seq<char>| #[trigger]
        first_occurrences(neighbours(relations, nodes, from)).contains(name) <==> names_a_neighbour(
            relations,
            nodes,
            from,
            name,
        ) by {
        lemma_neighbours_members(relations, nodes, from, name);
    }
}

/// A name that `connected_nodes` gives for a node is the name of a node to
/// which `has_direct_edge` finds an edge from it.
pub proof fn lemma_neighbour_is_linked(relations: Seq<RelationView>, nodes: NameTable<u64>, from: u64, name: Seq<char>)
    requires
        nodes.wf(),
        forall|i: int| 0 <= i < relations.len() ==> (#[trigger] relations[i]).wf(),
        names_a_neighbour(relations, nodes, from, name),
    ensures
        resolve(nodes, name).is_some(),
        directly_linked(relations, from, resolve(nodes, name).unwrap()),
{
    let (i, k) = choose|i: int, k: int|
        0 <= i < relations.len() && 0 <= k < relations[i].successors(from).len() && holder(
            nodes,
            #[trigger] relations[i].successors(from)[k],
        ) == Some(name);
    let relation = relations[i];
    let to = relation.successors(from)[k];
    let j = choose|j: int| is_first_holder(nodes, to, j);
    assert(nodes.names()[j] == name);
    nodes.lemma_position_unique(j);
    assert(resolve(nodes, name) == Some(to));
    assert(relation.wf());
    let v = relation.vertices.index_of(from);
    assert(0 <= v < relation.vertices.len());
    let t = relation.out[v][k].0;
    assert(0 <= t < relation.vertices.len());
    relation.lemma_vertex_unique(t);
    assert(crate::digraph::leads_to(relation.out[v], t));
    assert(relation.has_edge(from, to));
}

/// Where no two names have the same handle, the name of a node to which
/// `has_direct_edge` finds an edge is a name that `connected_nodes` gives.
pub proof fn lemma_linked_is_neighbour(relations: Seq<RelationView>, nodes: NameTable<u64>, from: u64, name: Seq<char>)
    requires
        nodes.wf(),
        nodes.values().no_duplicates(),
        forall|i: int| 0 <= i < relations.len() ==> (#[trigger] relations[i]).wf(),
        resolve(nodes, name).is_some(),
        directly_linked(relations, from, resolve(nodes, name).unwrap()),
    ensures
        names_a_neighbour(relations, nodes, from, name),
{
    let to = resolve(nodes, name).unwrap();
    nodes.lemma_position_holds(name);
    let p = nodes.position(name).unwrap();
    assert(is_first_holder(nodes, to, p));
    let j = choose|j: int| is_first_holder(nodes, to, j);
    assert(j == p);
    assert(holder(nodes, to) == Some(name));
    let i = choose|i: int| 0 <= i < relations.len() && (#[trigger] relations[i]).has_edge(from, to);
    let relation = relations[i];
    assert(relation.wf());
    let v = relation.vertices.index_of(from);
    let t = relation.vertices.index_of(to);
    assert(relation.vertices[t] == to);
    let k = choose|k: int| 0 <= k < relation.out[v].len() && (#[trigger] relation.out[v][k]).0 == t;
    assert(relation.successors(from)[k] == to);
    assert(holder(nodes, relations[i].successors(from)[k]) == Some(name));
}

/// The labels at one vertex of a relation whose edges all carry `label` are
/// nothing but `label`.
proof fn lemma_uniform_labels(relation: RelationView, label: Seq<char>, handle: u64)
    requires
        relation.wf(),
        relation.labelled(label),
    ensures
        forall|k: int| 0 <= k < relation.labels_from(handle).len() ==> relation.labels_from(handle)[k] == label,
        forall|k: int| 0 <= k < relation.labels_into(handle).len() ==> relation.labels_into(handle)[k] == label,
{
    if relation.vertices.contains(handle) {
        let v = relation.vertices.index_of(handle);
        assert(0 <= v < relation.vertices.len());
        assert forall|k: int| 0 <= k < relation.labels_from(handle).len() implies relation.labels_from(handle)[k]
            == label by {
            assert(relation.out[v][k].1 == label);
        }
        assert forall|k: int| 0 <= k < relation.labels_into(handle).len() implies relation.labels_into(handle)[k]
            == label by {
            assert(relation.inc[v][k].1 == label);
        }
    }
}

/// Among the labels that a query walks over relations with distinct names,
/// each relation's name occurs once for each edge of that relation's graph
/// at the node: as often as its graph has edges that leave the node, and
/// that enter it.
pub proof fn lemma_label_counts(names: Seq<Seq<char>>, relations: Seq<RelationView>, handle: u64, text: Seq<char>)
    requires
        names.no_duplicates(),
        names.len() == relations.len(),
        forall|j: int| 0 <= j < relations.len() ==> (#[trigger] relations[j]).wf() && relations[j].labelled(names[j]),
    ensures
        names.contains(text) ==> count_of(labels_leaving(relations, handle), text)
            == relations[names.index_of(text)].labels_from(handle).len(),
        names.contains(text) ==> count_of(labels_entering(relations, handle), text)
            == relations[names.index_of(text)].labels_into(handle).len(),
        !names.contains(text) ==> count_of(labels_leaving(relations, handle), text) == 0,
        !names.contains(text) ==> count_of(labels_entering(relations, handle), text) == 0,
    decreases relations.len(),
{
    if relations.len() > 0 {
        let n = relations.len() - 1;
        let front = relations.drop_last();
        let front_names = names.drop_last();
        let last = relations.last();
        assert(relations[n] == last);
        assert forall|j: int| 0 <= j < front.len() implies (#[trigger] front[j]).wf() && front[j].labelled(
            front_names[j],
        ) by {
            assert(front[j] == relations[j]);
        }
        assert(front_names.no_duplicates());
        lemma_label_counts(front_names, front, handle, text);
        lemma_uniform_labels(last, names[n], handle);
        lemma_count_of_uniform(last.labels_from(handle), names[n], text);
        lemma_count_of_uniform(last.labels_into(handle), names[n], text);
        lemma_count_of_concat(labels_leaving(front, handle), last.labels_from(handle), text);
        lemma_count_of_concat(labels_entering(front, handle), last.labels_into(handle), text);
        if names.contains(text) {
            let i = names.index_of(text);
            assert(names[i] == text);
            if i == n {
                if front_names.contains(text) {
                    let j = front_names.index_of(text);
                    assert(front_names[j] == text);
                    assert(names[j] == text);
                }
            } else {
                assert(front_names[i] == text);
                assert(front_names.contains(text));
                let j = front_names.index_of(text);
                assert(front_names[j] == text);
                assert(names[j] == text);
                assert(j == i);
                assert(front[i] == relations[i]);
            }
        } else {
            if front_names.contains(text) {
                let j = front_names.index_of(text);
                assert(front_names[j] == text);
                assert(names[j] == text);
            }
            assert(names[n] != text);
        }
    }
}

/// After one edge from `from` to `to` in a relation that had none, the edge
/// is the one that leaves `from` and the one that enters `to`, and it leads
/// from `from` to `to` and not back.
pub proof fn lemma_single_edge(from: u64, to: u64, label: Seq<char>)
    ensures
        ({
            let relations = seq![RelationView::empty().with_edges(from, seq![to], label)];
            &&& labels_leaving(relations, from) == seq![label]
            &&& labels_entering(relations, to) == seq![label]
            &&& directly_linked(relations, from, to)
            &&& from != to ==> !directly_linked(relations, to, from)
        }),
{
    let none = RelationView::empty();
    let one = none.with_edges(from, seq![to], label);
    let relations = seq![one];
    none.lemma_link_one(from, to, label);
    assert(relations.drop_last() =~= Seq::<RelationView>::empty());
    assert(relations.last() == one);
    assert(none.labels_from(from) =~= Seq::<Seq<char>>::empty());
    assert(none.labels_into(to) =~= Seq::<Seq<char>>::empty());
    assert(labels_leaving(relations.drop_last(), from) =~= Seq::<Seq<char>>::empty());
    assert(labels_entering(relations.drop_last(), to) =~= Seq::<Seq<char>>::empty());
    assert(labels_leaving(relations, from) =~= seq![label]);
    assert(labels_entering(relations, to) =~= seq![label]);
    assert(relations[0].has_edge(from, to));
    if from != to {
        assert(!none.has_edge(to, from));
        assert(!one.has_edge(to, from));
    }
}

/// Adding the same edge twice gives two edges: the relation has two more
/// edges than before, and both leave `from` and enter `to`.
pub proof fn lemma_repeated_edge_is_parallel(relation: RelationView, from: u64, to: u64, label: Seq<char>)
    requires
        relation.wf(),
    ensures
        ({
            let twice = relation.with_edges(from, seq![to], label).with_edges(from, seq![to], label);
            &&& twice.edge_count == relation.edge_count + 2
            &&& twice.labels_from(from) == seq![label, label] + relation.labels_from(from)
            &&& twice.labels_into(to) == seq![label, label] + relation.labels_into(to)
            &&& twice.successors(from) == seq![to, to] + relation.successors(from)
        }),
{
    let once = relation.with_edges(from, seq![to], label);
    let twice = once.with_edges(from, seq![to], label);
    relation.lemma_link_one(from, to, label);
    once.lemma_link_one(from, to, label);
    assert(twice.labels_from(from) =~= seq![label, label] + relation.labels_from(from));
    assert(twice.labels_into(to) =~= seq![label, label] + relation.labels_into(to));
    assert(twice.successors(from) =~= seq![to, to] + relation.successors(from));
}

/// A neighbour that two parallel edges lead to is named once: after the same
/// edge was added twice to a relation that had none, `connected_nodes` gives
/// the one name of its target.
pub proof fn lemma_repeated_edge_is_one_neighbour(
    nodes: NameTable<u64>,
    from: u64,
    to: u64,
    label: Seq<char>,
    name: Seq<char>,
)
    requires
        holder(nodes, to) == Some(name),
    ensures
        ({
            let twice = RelationView::empty().with_edges(from, seq![to], label).with_edges(from, seq![to], label);
            first_occurrences(neighbours(seq![twice], nodes, from)) == seq![name]
        }),
{
    let none = RelationView::empty();
    let twice = none.with_edges(from, seq![to], label).with_edges(from, seq![to], label);
    let relations = seq![twice];
    lemma_repeated_edge_is_parallel(none, from, to, label);
    assert(none.successors(from) =~= Seq::<u64>::empty());
    let reached = twice.successors(from);
    assert(reached =~= seq![to, to]);
    assert(reached.drop_last() =~= seq![to]);
    assert(seq![to].drop_last() =~= Seq::<u64>::empty());
    assert(names_of(nodes, Seq::<u64>::empty()) =~= Seq::<Seq<char>>::empty());
    assert(names_of(nodes, seq![to]) =~= seq![name]);
    assert(names_of(nodes, reached) =~= seq![name, name]);
    assert(relations.drop_last() =~= Seq::<RelationView>::empty());
    assert(relations.last() == twice);
    assert(neighbours(relations.drop_last(), nodes, from) =~= Seq::<Seq<char>>::empty());
    let walk = neighbours(relations, nodes, from);
    assert(walk =~= seq![name, name]);
    assert(walk.drop_last() =~= seq![name]);
    assert(seq![name].drop_last() =~= Seq::<Seq<char>>::empty());
    assert(first_occurrences(Seq::<Seq<char>>::empty()) =~= Seq::<Seq<char>>::empty());
    assert(first_occurrences(seq![name]) =~= seq![name]);
    assert(seq![name][0] == name);
    assert(first_occurrences(walk) =~= seq![name]);
}

/// The position of the first name that `nodes` binds to `handle`.
pub fn find_holder(nodes: &NameTable<u64>, handle: u64) -> (found: Option<usize>)
    requires
        nodes.wf(),
    ensures
        match found {
            Some(j) => j < nodes.names().len() && holder(*nodes, handle) == Some(nodes.names()[j as int]),
            None => holder(*nodes, handle).is_none(),
        },
{
    let mut j: usize = 0;
    while j < nodes.len()
        invariant
            nodes.wf(),
            j <= nodes.values().len(),
            forall|i: int| 0 <= i < j ==> nodes.values()[i] != handle,
        decreases nodes.values().len() - j,
    {
        if *nodes.value_at(j) == handle {
            proof {
                assert(is_first_holder(*nodes, handle, j as int));
                let chosen = choose|c: int| is_first_holder(*nodes, handle, c);
                assert(chosen == j);
            }
            return Some(j);
        }
        j += 1;
    }
    None
}

/// Appends the label of each of `arcs` to `edges`.
fn push_labels(edges: &mut Vec<String>, arcs: &Vec<(usize, String)>)
    ensures
        texts(final(edges)@) == texts(old(edges)@) + crate::digraph::labels(crate::digraph::arcs_of(arcs@)),
{
    let ghost base = texts(edges@);
    let ghost all = crate::digraph::labels(crate::digraph::arcs_of(arcs@));
    let mut k: usize = 0;
    while k < arcs.len()
        invariant
            k <= arcs@.len(),
            all == crate::digraph::labels(crate::digraph::arcs_of(arcs@)),
            texts(edges@) == base + all.take(k as int),
        decreases arcs@.len() - k,
    {
        let ghost held = edges@;
        let label = arcs[k].1.clone();
        edges.push(label);
        proof {
            assert(texts(edges@) =~= texts(held).push(label@));
            assert(all.take(k as int + 1) =~= all.take(k as int).push(all[k as int]));
            assert(texts(edges@) =~= base + all.take(k as int + 1));
        }
        k += 1;
    }
    assert(all.take(arcs@.len() as int) =~= all);
}

impl Description {
    /// Both tables are well-formed.
    pub open spec fn wf(&self) -> bool {
        self.node_name_to_entity.wf() && self.graphs.wf()
    }

    /// The labels of the edges that leave the node `node_name`, graph by
    /// graph in the order of the relation names, and within a graph the most
    /// recently added edge first. A graph in which the node has no vertex
    /// gives none. Each relation's name comes once for each edge of its graph
    /// that leaves the node.
    pub fn outgoing_edges(&self, node_name: &str) -> (result: Result<Vec<String>, Error>)
        requires
            self.wf(),
        ensures
            match result {
                Ok(edges) => {
                    &&& resolve(self.node_name_to_entity, node_name@).is_some()
                    &&& texts(edges@) == labels_leaving(
                        self.graphs.relations(),
                        resolve(self.node_name_to_entity, node_name@).unwrap(),
                    )
                    &&& forall|relation: Seq<char>| #[trigger]
                        count_of(texts(edges@), relation) == self.graphs.relation(relation).labels_from(
                            resolve(self.node_name_to_entity, node_name@).unwrap(),
                        ).len()
                },
                Err(e) => resolve(self.node_name_to_entity, node_name@).is_none() && e.is_missing(node_name@),
            },
    {
        let key = node_name.to_owned();
        let handle = match lookup(&self.node_name_to_entity, &key) {
            Some(handle) => handle,
            None => {
                return Err(Error::NodeNotFound { name: key });
            },
        };
        let mut edges: Vec<String> = Vec::new();
        let n = self.graphs.len();
        let mut i: usize = 0;
        assert(self.graphs.relations().take(0) =~= Seq::<RelationView>::empty());
        assert(texts(edges@) =~= Seq::<Seq<char>>::empty());
        while i < n
            invariant
                self.wf(),
                n == self.graphs.relations().len(),
                i <= n,
                texts(edges@) == labels_leaving(self.graphs.relations().take(i as int), handle),
            decreases n - i,
        {
            let g = self.graphs.graph_at(i);
            proof {
                self.graphs.lemma_wf();
                let upto = self.graphs.relations().take(i as int + 1);
                assert(upto.drop_last() =~= self.graphs.relations().take(i as int));
                assert(upto.last() == view_of(*g));
            }
            match find_vertex(g, handle) {
                Some(v) => {
                    let arcs = graph_outgoing(g, v);
                    push_labels(&mut edges, &arcs);
                },
                None => {
                    assert(texts(edges@) + Seq::<Seq<char>>::empty() =~= texts(edges@));
                },
            }
            i += 1;
        }
        assert(self.graphs.relations().take(n as int) =~= self.graphs.relations());
        proof {
            assert forall|relation: Seq<char>| #[trigger]
                count_of(texts(edges@), relation) == self.graphs.relation(relation).labels_from(handle).len() by {
                self.graphs.lemma_labels_by_relation(handle, relation);
            }
        }
        Ok(edges)
    }

    /// The labels of the edges that enter the node `node_name`, graph by
    /// graph in the order of the relation names, and within a graph the most
    /// recently added edge first. A graph in which the node has no vertex
    /// gives none. Each relation's name comes once for each edge of its graph
    /// that enters the node.
    pub fn incoming_edges(&self, node_name: &str) -> (result: Result<Vec<String>, Error>)
        requires
            self.wf(),
        ensures
            match result {
                Ok(edges) => {
                    &&& resolve(self.node_name_to_entity, node_name@).is_some()
                    &&& texts(edges@) == labels_entering(
                        self.graphs.relations(),
                        resolve(self.node_name_to_entity, node_name@).unwrap(),
                    )
                    &&& forall|relation: Seq<char>| #[trigger]
                        count_of(texts(edges@), relation) == self.graphs.relation(relation).labels_into(
                            resolve(self.node_name_to_entity, node_name@).unwrap(),
                        ).len()
                },
                Err(e) => resolve(self.node_name_to_entity, node_name@).is_none() && e.is_missing(node_name@),
            },
    {
        let key = node_name.to_owned();
        let handle = match lookup(&self.node_name_to_entity, &key) {
            Some(handle) => handle,
            None => {
                return Err(Error::NodeNotFound { name: key });
            },
        };
        let mut edges: Vec<String> = Vec::new();
        let n = self.graphs.len();
        let mut i: usize = 0;
        assert(self.graphs.relations().take(0) =~= Seq::<RelationView>::empty());
        assert(texts(edges@) =~= Seq::<Seq<char>>::empty());
        while i < n
            invariant
                self.wf(),
                n == self.graphs.relations().len(),
                i <= n,
                texts(edges@) == labels_entering(self.graphs.relations().take(i as int), handle),
            decreases n - i,
        {
            let g = self.graphs.graph_at(i);
            proof {
                self.graphs.lemma_wf();
                let upto = self.graphs.relations().take(i as int + 1);
                assert(upto.drop_last() =~= self.graphs.relations().take(i as int));
                assert(upto.last() == view_of(*g));
            }
            match find_vertex(g, handle) {
                Some(v) => {
                    let arcs = graph_incoming(g, v);
                    push_labels(&mut edges, &arcs);
                },
                None => {
                    assert(texts(edges@) + Seq::<Seq<char>>::empty() =~= texts(edges@));
                },
            }
            i += 1;
        }
        assert(self.graphs.relations().take(n as int) =~= self.graphs.relations());
        proof {
            assert forall|relation: Seq<char>| #[trigger]
                count_of(texts(edges@), relation) == self.graphs.relation(relation).labels_into(handle).len() by {
                self.graphs.lemma_labels_by_relation(handle, relation);
            }
        }
        Ok(edges)
    }

    /// The names of the nodes that an edge leads to from the node
    /// `node_name`, each once: in the order in which a walk meets them
    /// first, graph by graph and within a graph the most recently added edge
    /// first. A neighbour whose handle has no name any more is passed over.
    pub fn connected_nodes(&self, node_name: &str) -> (result: Result<Vec<String>, Error>)
        requires
            self.wf(),
        ensures
            match result {
                Ok(names) => {
                    &&& resolve(self.node_name_to_entity, node_name@).is_some()
                    &&& texts(names@) == first_occurrences(
                        neighbours(
                            self.graphs.relations(),
                            self.node_name_to_entity,
                            resolve(self.node_name_to_entity, node_name@).unwrap(),
                        ),
                    )
                },
                Err(e) => resolve(self.node_name_to_entity, node_name@).is_none() && e.is_missing(node_name@),
            },
    {
        let key = node_name.to_owned();
        let handle = match lookup(&self.node_name_to_entity, &key) {
            Some(handle) => handle,
            None => {
                return Err(Error::NodeNotFound { name: key });
            },
        };
        let mut names: Vec<String> = Vec::new();
        let n = self.graphs.len();
        let mut i: usize = 0;
        assert(self.graphs.relations().take(0) =~= Seq::<RelationView>::empty());
        assert(texts(names@) =~= Seq::<Seq<char>>::empty());
        while i < n
            invariant
                self.wf(),
                n == self.graphs.relations().len(),
                i <= n,
                texts(names@) == first_occurrences(
                    neighbours(self.graphs.relations().take(i as int), self.node_name_to_entity, handle),
                ),
            decreases n - i,
        {
            let g = self.graphs.graph_at(i);
            let ghost rel = view_of(*g);
            let ghost base = neighbours(self.graphs.relations().take(i as int), self.node_name_to_entity, handle);
            proof {
                self.graphs.lemma_wf();
                let upto = self.graphs.relations().take(i as int + 1);
                assert(upto.drop_last() =~= self.graphs.relations().take(i as int));
                assert(upto.last() == rel);
                assert(rel.wf());
            }
            match find_vertex(g, handle) {
                Some(v) => {
                    let targets = graph_neighbors(g, v);
                    let ghost reached = rel.successors(handle);
                    let mut k: usize = 0;
                    assert(reached.take(0) =~= Seq::<u64>::empty());
                    assert(base + Seq::<Seq<char>>::empty() =~= base);
                    while k < targets.len()
                        invariant
                            self.wf(),
                            rel == view_of(*g),
                            rel.wf(),
                            v < rel.vertices.len(),
                            rel.vertex_of(handle) == Some(v as int),
                            reached == rel.successors(handle),
                            targets@.len() == rel.out[v as int].len(),
                            forall|t: int|
                                0 <= t < targets@.len() ==> targets@[t] as int == (#[trigger] rel.out[v as int][t]).0,
                            k <= targets@.len(),
                            texts(names@) == first_occurrences(
                                base + names_of(self.node_name_to_entity, reached.take(k as int)),
                            ),
                        decreases targets@.len() - k,
                    {
                        assert(0 <= rel.out[v as int][k as int].0 < rel.vertices.len());
                        let far = graph_node_weight(g, targets[k]);
                        proof {
                            let upto = reached.take(k as int + 1);
                            assert(upto.drop_last() =~= reached.take(k as int));
                            assert(upto.last() == far);
                        }
                        match find_holder(&self.node_name_to_entity, far) {
                            Some(j) => {
                                let name = self.node_name_to_entity.name_at(j);
                                let ghost rest = names_of(self.node_name_to_entity, reached.take(k as int));
                                proof {
                                    let walked = base + rest.push(name@);
                                    assert(names_of(self.node_name_to_entity, reached.take(k as int + 1))
                                        == rest.push(name@));
                                    assert(walked.drop_last() =~= base + rest);
                                    assert(walked.last() == name@);
                                }
                                if !contains_text(&names, name) {
                                    let ghost held = names@;
                                    let fresh = name.clone();
                                    names.push(fresh);
                                    assert(texts(names@) =~= texts(held).push(name@));
                                }
                            },
                            None => {},
                        }
                        k += 1;
                    }
                    assert(reached.take(targets@.len() as int) =~= reached);
                },
                None => {
                    assert(base + Seq::<Seq<char>>::empty() =~= base);
                },
            }
            i += 1;
        }
        assert(self.graphs.relations().take(n as int) =~= self.graphs.relations());
        Ok(names)
    }

    /// Whether some relation graph has an edge from the node `from_node` to
    /// the node `to_node`. Both names have to be nodes, `from_node` being
    /// looked up first.
    pub fn has_direct_edge(&self, from_node: &str, to_node: &str) -> (result: Result<bool, Error>)
        requires
            self.wf(),
        ensures
            match result {
                Ok(linked) => {
                    &&& resolve(self.node_name_to_entity, from_node@).is_some()
                    &&& resolve(self.node_name_to_entity, to_node@).is_some()
                    &&& linked == directly_linked(
                        self.graphs.relations(),
                        resolve(self.node_name_to_entity, from_node@).unwrap(),
                        resolve(self.node_name_to_entity, to_node@).unwrap(),
                    )
                },
                Err(e) => if resolve(self.node_name_to_entity, from_node@).is_none() {
                    e.is_missing(from_node@)
                } else {
                    resolve(self.node_name_to_entity, to_node@).is_none() && e.is_missing(to_node@)
                },
            },
    {
        let from_key = from_node.to_owned();
        let from = match lookup(&self.node_name_to_entity, &from_key) {
            Some(handle) => handle,
            None => {
                return Err(Error::NodeNotFound { name: from_key });
            },
        };
        let to_key = to_node.to_owned();
        let to = match lookup(&self.node_name_to_entity, &to_key) {
            Some(handle) => handle,
            None => {
                return Err(Error::NodeNotFound { name: to_key });
            },
        };
        let n = self.graphs.len();
        let mut i: usize = 0;
        while i < n
            invariant
                self.wf(),
                n == self.graphs.relations().len(),
                i <= n,
                resolve(self.node_name_to_entity, from_node@) == Some(from),
                resolve(self.node_name_to_entity, to_node@) == Some(to),
                forall|j: int| 0 <= j < i ==> !(#[trigger] self.graphs.relations()[j]).has_edge(from, to),
            decreases n - i,
        {
            let g = self.graphs.graph_at(i);
            proof {
                self.graphs.lemma_wf();
                assert(self.graphs.relations()[i as int].wf());
            }
            match find_vertex(g, from) {
                Some(a) => {
                    match find_vertex(g, to) {
                        Some(b) => {
                            if graph_contains_edge(g, a, b) {
                                assert(self.graphs.relations()[i as int].has_edge(from, to));
                                return Ok(true);
                            }
                        },
                        None => {},
                    }
                },
                None => {},
            }
            i += 1;
        }
        Ok(false)
    }
}

} // verus!
