//! A stand-alone entity graph: entities with keyed components, and named
//! relationships between them kept as adjacency lists.

use crate::registry::TypeRegistry;
use crate::table::{same_text, texts, NameTable};
use serde_json::Value;
use vstd::prelude::*;

verus! {

/// serde_json's `Value`: a component value, opaque here.
#[verifier::external_type_specification]
#[verifier::external_body]
pub struct ExValue(Value);

/// Why an operation on an entity graph failed.
#[derive(Debug)]
pub enum EntityGraphError {
    EntityAlreadyExists,
    EntityNotFound,
    EdgeError,
    SerializationError(String),
    DeserializationError(String),
}

impl EntityGraphError {
    /// The text of the message for this error.
    pub open spec fn spec_message(self) -> Seq<char> {
        match self {
            EntityGraphError::EntityAlreadyExists => "Entity with this ID already exists"@,
            EntityGraphError::EntityNotFound => "Entity with this ID does not exist"@,
            EntityGraphError::EdgeError => "One of the entity IDs does not exist"@,
            EntityGraphError::SerializationError(e) => "Serialization error: "@ + e@,
            EntityGraphError::DeserializationError(e) => "Deserialization error: "@ + e@,
        }
    }

    /// The message for this error.
    pub fn message(&self) -> (text: String)
        ensures
            text@ == self.spec_message(),
    {
        match self {
            EntityGraphError::EntityAlreadyExists => "Entity with this ID already exists".to_owned(),
            EntityGraphError::EntityNotFound => "Entity with this ID does not exist".to_owned(),
            EntityGraphError::EdgeError => "One of the entity IDs does not exist".to_owned(),
            EntityGraphError::SerializationError(e) => {
                let mut text = "Serialization error: ".to_owned();
                text.append(e.as_str());
                text
            },
            EntityGraphError::DeserializationError(e) => {
                let mut text = "Deserialization error: ".to_owned();
                text.append(e.as_str());
                text
            },
        }
    }
}

/// `items` without every occurrence of `id`, the rest in order.
pub open spec fn without(items: Seq<Seq<char>>, id: Seq<char>) -> Seq<Seq<char>>
    decreases items.len(),
{
    if items.len() == 0 {
        Seq::empty()
    } else {
        let rest = without(items.drop_last(), id);
        if items.last() == id {
            rest
        } else {
            rest.push(items.last())
        }
    }
}

/// A copy of `list` without every occurrence of `id`.
fn strip(list: &Vec<String>, id: &String) -> (kept: Vec<String>)
    ensures
        texts(kept@) == without(texts(list@), id@),
{
    let mut kept: Vec<String> = Vec::new();
    let mut k: usize = 0;
    assert(texts(list@).take(0) =~= Seq::<Seq<char>>::empty());
    assert(texts(kept@) =~= Seq::<Seq<char>>::empty());
    while k < list.len()
        invariant
            k <= list@.len(),
            texts(kept@) == without(texts(list@).take(k as int), id@),
        decreases list@.len() - k,
    {
        proof {
            let upto = texts(list@).take(k as int + 1);
            assert(upto.drop_last() =~= texts(list@).take(k as int));
            assert(upto.last() == list@[k as int]@);
        }
        if !same_text(&list[k], id) {
            let ghost held = kept@;
            let item = list[k].clone();
            kept.push(item);
            assert(texts(kept@) =~= texts(held).push(item@));
        }
        k += 1;
    }
    assert(texts(list@).take(list@.len() as int) =~= texts(list@));
    kept
}

/// What an adjacency list holds: the sources that have edges, and for each
/// the targets of its edges in the order in which they were added.
pub struct AdjacencyView {
    pub sources: Seq<Seq<char>>,
    pub targets: Seq<Seq<Seq<char>>>,
}

impl AdjacencyView {
    /// The targets of `id`'s edges, if it is a source.
    pub open spec fn neighbors(self, id: Seq<char>) -> Option<Seq<Seq<char>>> {
        if self.sources.contains(id) {
            Some(self.targets[self.sources.index_of(id)])
        } else {
            None
        }
    }

    /// The list with one more edge from `from` to `to`, behind the edges that
    /// `from` has already.
    pub open spec fn with_edge(self, from: Seq<char>, to: Seq<char>) -> AdjacencyView {
        if self.sources.contains(from) {
            let i = self.sources.index_of(from);
            AdjacencyView { sources: self.sources, targets: self.targets.update(i, self.targets[i].push(to)) }
        } else {
            AdjacencyView { sources: self.sources.push(from), targets: self.targets.push(seq![to]) }
        }
    }

    /// The list without `id`: neither a source nor a target any more.
    pub open spec fn purged(self, id: Seq<char>) -> AdjacencyView {
        let kept = if self.sources.contains(id) {
            AdjacencyView {
                sources: self.sources.remove(self.sources.index_of(id)),
                targets: self.targets.remove(self.sources.index_of(id)),
            }
        } else {
            self
        };
        AdjacencyView {
            sources: kept.sources,
            targets: Seq::new(kept.targets.len(), |i: int| without(kept.targets[i], id)),
        }
    }
}

/// The edges of one relationship, by source.
#[derive(Debug, Clone, PartialEq)]
pub struct AdjacencyList {
    edges: NameTable<Vec<String>>,
}

impl View for AdjacencyList {
    type V = AdjacencyView;

    closed spec fn view(&self) -> AdjacencyView {
        AdjacencyView {
            sources: self.edges.names(),
            targets: Seq::new(self.edges.values().len(), |i: int| texts(self.edges.values()[i]@)),
        }
    }
}

impl AdjacencyList {
    /// No source occurs twice.
    pub closed spec fn wf(&self) -> bool {
        self.edges.wf()
    }

    /// A well-formed list has one target list per source, and no source twice.
    pub proof fn lemma_wf(&self)
        requires
            self.wf(),
        ensures
            self@.sources.no_duplicates(),
            self@.sources.len() == self@.targets.len(),
    {
    }

    pub fn new() -> (list: Self)
        ensures
            list.wf(),
            list@.sources == Seq::<Seq<char>>::empty(),
            list@.targets == Seq::<Seq<Seq<char>>>::empty(),
    {
        let list = AdjacencyList { edges: NameTable::new() };
        assert(list@.targets =~= Seq::<Seq<Seq<char>>>::empty());
        list
    }

    /// The targets of `id`'s edges, if it is a source.
    pub fn neighbors(&self, id: &String) -> (found: Option<&Vec<String>>)
        requires
            self.wf(),
        ensures
            match found {
                Some(list) => self@.neighbors(id@) == Some(texts(list@)),
                None => self@.neighbors(id@).is_none(),
            },
    {
        match self.edges.find(id) {
            Some(i) => Some(self.edges.value_at(i)),
            None => None,
        }
    }

    /// The sources, in the order in which their first edge was added.
    pub fn sources(&self) -> (sources: Vec<String>)
        ensures
            texts(sources@) == self@.sources,
    {
        self.edges.name_list()
    }

    /// Makes `from` a source, without edges where it is none yet.
    pub fn declare(&mut self, from: String)
        requires
            old(self).wf(),
        ensures
            final(self).wf(),
            if old(self)@.sources.contains(from@) {
                final(self)@ == old(self)@
            } else {
                final(self)@.sources == old(self)@.sources.push(from@) && final(self)@.targets == old(
                    self,
                )@.targets.push(Seq::empty())
            },
    {
        if self.edges.find(&from).is_none() {
            let list: Vec<String> = Vec::new();
            assert(texts(list@) =~= Seq::<Seq<char>>::empty());
            self.edges.push(from, list);
            assert(self@.targets =~= old(self)@.targets.push(Seq::empty()));
        }
    }

    /// Adds an edge from `from` to `to`.
    pub fn add(&mut self, from: String, to: String)
        requires
            old(self).wf(),
        ensures
            final(self).wf(),
            final(self)@ == old(self)@.with_edge(from@, to@),
    {
        match self.edges.find(&from) {
            Some(i) => {
                let ghost before = self.edges.values();
                let list = self.edges.value_at_mut(i);
                let ghost held = list@;
                list.push(to);
                proof {
                    assert(texts(held.push(to)) =~= texts(held).push(to@));
                    assert(self@.targets =~= old(self)@.targets.update(i as int, old(self)@.targets[i as int].push(to@)));
                }
            },
            None => {
                let mut list: Vec<String> = Vec::new();
                list.push(to);
                assert(texts(list@) =~= seq![to@]);
                self.edges.push(from, list);
                assert(self@.targets =~= old(self)@.targets.push(seq![to@]));
            },
        }
    }

    /// Removes `id` as a source, and from the targets of every other source.
    pub fn purge(&mut self, id: &String)
        requires
            old(self).wf(),
        ensures
            final(self).wf(),
            final(self)@ == old(self)@.purged(id@),
    {
        match self.edges.find(id) {
            Some(i) => {
                let _ = self.edges.remove_at(i);
            },
            None => {},
        }
        let ghost kept = self.edges;
        let n = self.edges.len();
        let mut i: usize = 0;
        while i < n
            invariant
                self.edges.wf(),
                kept.wf(),
                n == kept.values().len(),
                i <= n,
                self.edges.names() == kept.names(),
                self.edges.values().len() == n,
                forall|j: int| 0 <= j < i ==> texts(#[trigger] self.edges.values()[j]@) == without(texts(kept.values()[j]@), id@),
                forall|j: int| i <= j < n ==> #[trigger] self.edges.values()[j] == kept.values()[j],
            decreases n - i,
        {
            let stripped = strip(self.edges.value_at(i), id);
            self.edges.set_value(i, stripped);
            i += 1;
        }
        proof {
            let goal = old(self)@.purged(id@);
            assert(self@.sources == goal.sources);
            assert(self@.targets.len() == goal.targets.len());
            assert forall|j: int| 0 <= j < goal.targets.len() implies self@.targets[j] == goal.targets[j] by {
                assert(self@.targets[j] == texts(self.edges.values()[j]@));
            }
            assert(self@.targets =~= goal.targets);
        }
    }
}

/// The value that a component list gives for `key`: that of the last pair
/// with this key.
pub open spec fn component_of(pairs: Seq<(String, Value)>, key: Seq<char>) -> Option<Value>
    decreases pairs.len(),
{
    if pairs.len() == 0 {
        None
    } else if pairs.last().0@ == key {
        Some(pairs.last().1)
    } else {
        component_of(pairs.drop_last(), key)
    }
}

/// The targets of `id`'s edges in the first of `relations` in which `id` is a
/// source.
pub open spec fn neighbors_in(relations: Seq<AdjacencyView>, id: Seq<char>) -> Option<Seq<Seq<char>>>
    decreases relations.len(),
{
    if relations.len() == 0 {
        None
    } else {
        match relations.first().neighbors(id) {
            Some(list) => Some(list),
            None => neighbors_in(relations.drop_first(), id),
        }
    }
}

/// The neighbours of `id`, none where it is no source.
pub open spec fn next_of(relations: Seq<AdjacencyView>, id: Seq<char>) -> Seq<Seq<char>> {
    match neighbors_in(relations, id) {
        Some(list) => list,
        None => Seq::empty(),
    }
}

/// Entities with their components, and the relationships between them.
#[derive(Debug, Clone, PartialEq)]
pub struct EntityGraph {
    entities: NameTable<Vec<(String, Value)>>,
    relationships: NameTable<AdjacencyList>,
}

impl EntityGraph {
    /// The entity ids, in the order in which the entities were added.
    pub closed spec fn ids(&self) -> Seq<Seq<char>> {
        self.entities.names()
    }

    /// The component list of each entity, in the order of `ids`.
    pub closed spec fn component_lists(&self) -> Seq<Seq<(String, Value)>> {
        Seq::new(self.entities.values().len(), |i: int| self.entities.values()[i]@)
    }

    /// The relationship keys, in the order in which their first edge was added.
    pub closed spec fn relation_names(&self) -> Seq<Seq<char>> {
        self.relationships.names()
    }

    /// The adjacency list of each relationship, in the order of
    /// `relation_names`.
    pub closed spec fn relations(&self) -> Seq<AdjacencyView> {
        Seq::new(self.relationships.values().len(), |i: int| self.relationships.values()[i]@)
    }

    /// No id, relationship key or source occurs twice.
    pub closed spec fn wf(&self) -> bool {
        &&& self.entities.wf()
        &&& self.relationships.wf()
        &&& forall|i: int| 0 <= i < self.relationships.values().len() ==> (#[trigger] self.relationships.values()[i]).wf()
    }

    /// The components of the entity `id`, if there is such an entity.
    pub open spec fn components_of(&self, id: Seq<char>) -> Option<Seq<(String, Value)>> {
        if self.ids().contains(id) {
            Some(self.component_lists()[self.ids().index_of(id)])
        } else {
            None
        }
    }

    /// The adjacency list of the relationship `key`: empty where no edge was
    /// added under that key.
    pub open spec fn relation(&self, key: Seq<char>) -> AdjacencyView {
        if self.relation_names().contains(key) {
            self.relations()[self.relation_names().index_of(key)]
        } else {
            AdjacencyView { sources: Seq::empty(), targets: Seq::empty() }
        }
    }

    /// What a well-formed graph guarantees to its readers.
    pub proof fn lemma_wf(&self)
        requires
            self.wf(),
        ensures
            self.ids().no_duplicates(),
            self.ids().len() == self.component_lists().len(),
            self.relation_names().no_duplicates(),
            self.relation_names().len() == self.relations().len(),
            forall|i: int|
                0 <= i < self.relations().len() ==> (#[trigger] self.relations()[i]).sources.len()
                    == self.relations()[i].targets.len(),
    {
        assert forall|i: int| 0 <= i < self.relations().len() implies (#[trigger] self.relations()[i]).sources.len()
            == self.relations()[i].targets.len() by {
            self.relationships.values()[i].lemma_wf();
        }
    }

    pub fn new() -> (graph: Self)
        ensures
            graph.wf(),
            graph.ids() == Seq::<Seq<char>>::empty(),
            graph.component_lists() == Seq::<Seq<(String, Value)>>::empty(),
            graph.relation_names() == Seq::<Seq<char>>::empty(),
            graph.relations() == Seq::<AdjacencyView>::empty(),
    {
        let graph = EntityGraph { entities: NameTable::new(), relationships: NameTable::new() };
        assert(graph.component_lists() =~= Seq::<Seq<(String, Value)>>::empty());
        assert(graph.relations() =~= Seq::<AdjacencyView>::empty());
        graph
    }

    /// Adds the entity `id` with `components`. An id that is in use is
    /// refused, and nothing changes.
    pub fn add_entity(&mut self, id: String, components: Vec<(String, Value)>) -> (result: Result<
        (),
        EntityGraphError,
    >)
        requires
            old(self).wf(),
        ensures
            final(self).wf(),
            final(self).relation_names() == old(self).relation_names(),
            final(self).relations() == old(self).relations(),
            match result {
                Ok(()) => {
                    &&& !old(self).ids().contains(id@)
                    &&& final(self).ids() == old(self).ids().push(id@)
                    &&& final(self).component_lists() == old(self).component_lists().push(components@)
                },
                Err(e) => {
                    &&& old(self).ids().contains(id@)
                    &&& e is EntityAlreadyExists
                    &&& final(self).ids() == old(self).ids()
                    &&& final(self).component_lists() == old(self).component_lists()
                },
            },
    {
        if self.entities.find(&id).is_some() {
            return Err(EntityGraphError::EntityAlreadyExists);
        }
        self.entities.push(id, components);
        assert(self.component_lists() =~= old(self).component_lists().push(components@));
        Ok(())
    }

    /// Whether an entity `id` exists.
    pub fn contains_entity(&self, id: &String) -> (found: bool)
        ensures
            found == self.ids().contains(id@),
    {
        self.entities.find(id).is_some()
    }

    /// The ids of the entities, in the order in which they were added.
    pub fn entity_ids(&self) -> (ids: Vec<String>)
        ensures
            texts(ids@) == self.ids(),
    {
        self.entities.name_list()
    }

    /// The relationship keys, in the order in which their first edge was added.
    pub fn relationship_keys(&self) -> (keys: Vec<String>)
        ensures
            texts(keys@) == self.relation_names(),
    {
        self.relationships.name_list()
    }

    /// The adjacency list of the relationship `key`, if there is one.
    pub fn relationship(&self, key: &String) -> (found: Option<&AdjacencyList>)
        requires
            self.wf(),
        ensures
            match found {
                Some(list) => self.relation_names().contains(key@) && list@ == self.relation(key@) && list.wf(),
                None => !self.relation_names().contains(key@),
            },
    {
        match self.relationships.find(key) {
            Some(i) => {
                proof {
                    self.relationships.lemma_position_holds(key@);
                }
                Some(self.relationships.value_at(i))
            },
            None => None,
        }
    }

    /// Makes `list` the adjacency list of the relationship `key`, in place of
    /// the one it has, or as a new last relationship.
    pub fn set_relationship(&mut self, key: String, list: AdjacencyList)
        requires
            old(self).wf(),
            list.wf(),
        ensures
            final(self).wf(),
            final(self).ids() == old(self).ids(),
            final(self).component_lists() == old(self).component_lists(),
            final(self).relation(key@) == list@,
            if old(self).relation_names().contains(key@) {
                &&& final(self).relation_names() == old(self).relation_names()
                &&& final(self).relations() == old(self).relations().update(
                    old(self).relation_names().index_of(key@),
                    list@,
                )
            } else {
                &&& final(self).relation_names() == old(self).relation_names().push(key@)
                &&& final(self).relations() == old(self).relations().push(list@)
            },
    {
        proof {
            self.relationships.lemma_position_holds(key@);
        }
        let at = self.relationships.insert(key, list);
        proof {
            self.relationships.lemma_position_holds(key@);
            if old(self).relation_names().contains(key@) {
                assert(self.relations() =~= old(self).relations().update(at as int, list@));
            } else {
                assert(self.relations() =~= old(self).relations().push(list@));
            }
        }
    }

    /// The component list of the entity `id`, as it was given.
    pub fn components(&self, id: &String) -> (found: Option<&Vec<(String, Value)>>)
        requires
            self.wf(),
        ensures
            match found {
                Some(pairs) => self.components_of(id@) == Some(pairs@),
                None => self.components_of(id@).is_none(),
            },
    {
        match self.entities.find(id) {
            Some(i) => {
                proof {
                    self.entities.lemma_position_holds(id@);
                }
                Some(self.entities.value_at(i))
            },
            None => None,
        }
    }

    /// Removes the entity `id`, and purges it from every relationship, as a
    /// source and as a target.
    pub fn remove_entity(&mut self, id: &String)
        requires
            old(self).wf(),
        ensures
            final(self).wf(),
            !final(self).ids().contains(id@),
            old(self).ids().contains(id@) ==> final(self).ids() == old(self).ids().remove(
                old(self).ids().index_of(id@),
            ) && final(self).component_lists() == old(self).component_lists().remove(old(self).ids().index_of(id@)),
            !old(self).ids().contains(id@) ==> final(self).ids() == old(self).ids() && final(self).component_lists()
                == old(self).component_lists(),
            final(self).relation_names() == old(self).relation_names(),
            final(self).relations().len() == old(self).relations().len(),
            forall|r: int|
                0 <= r < old(self).relations().len() ==> (#[trigger] final(self).relations()[r]) == old(
                    self,
                ).relations()[r].purged(id@),
    {
        match self.entities.find(id) {
            Some(i) => {
                proof {
                    self.entities.lemma_position_holds(id@);
                    self.entities.lemma_position_unique(i as int);
                }
                let _ = self.entities.remove_at(i);
                proof {
                    assert(self.component_lists() =~= old(self).component_lists().remove(i as int));
                    if self.ids().contains(id@) {
                        let j = self.ids().index_of(id@);
                        assert(self.ids()[j] == id@);
                        let j0 = if j < i { j } else { j + 1 };
                        assert(old(self).ids()[j0] == id@);
                    }
                }
            },
            None => {},
        }
        let ghost kept = *self;
        let n = self.relationships.len();
        let mut r: usize = 0;
        while r < n
            invariant
                self.wf(),
                kept.wf(),
                self.entities == kept.entities,
                n == kept.relationships.values().len(),
                self.relationships.values().len() == n,
                self.relationships.names() == kept.relationships.names(),
                r <= n,
                forall|j: int| 0 <= j < r ==> (#[trigger] self.relationships.values()[j])@ == kept.relationships.values()[j]@.purged(id@),
                forall|j: int| r <= j < n ==> #[trigger] self.relationships.values()[j] == kept.relationships.values()[j],
            decreases n - r,
        {
            let list = self.relationships.value_at_mut(r);
            list.purge(id);
            r += 1;
        }
    }

    /// Adds an edge from `from` to `to` under the relationship
    /// `relationship_key`, behind the edges that `from` has there already.
    /// Both ends have to be entities; otherwise nothing changes.
    pub fn add_edge(&mut self, relationship_key: String, from: String, to: String) -> (result: Result<
        (),
        EntityGraphError,
    >)
        requires
            old(self).wf(),
        ensures
            final(self).wf(),
            final(self).ids() == old(self).ids(),
            final(self).component_lists() == old(self).component_lists(),
            match result {
                Ok(()) => {
                    &&& old(self).ids().contains(from@)
                    &&& old(self).ids().contains(to@)
                    &&& if old(self).relation_names().contains(relationship_key@) {
                        &&& final(self).relation_names() == old(self).relation_names()
                        &&& final(self).relations() == old(self).relations().update(
                            old(self).relation_names().index_of(relationship_key@),
                            old(self).relation(relationship_key@).with_edge(from@, to@),
                        )
                    } else {
                        &&& final(self).relation_names() == old(self).relation_names().push(relationship_key@)
                        &&& final(self).relations() == old(self).relations().push(
                            old(self).relation(relationship_key@).with_edge(from@, to@),
                        )
                    }
                },
                Err(e) => {
                    &&& !(old(self).ids().contains(from@) && old(self).ids().contains(to@))
                    &&& e is EdgeError
                    &&& final(self).relation_names() == old(self).relation_names()
                    &&& final(self).relations() == old(self).relations()
                },
            },
    {
        if !self.contains_entity(&from) || !self.contains_entity(&to) {
            return Err(EntityGraphError::EdgeError);
        }
        let at = match self.relationships.find(&relationship_key) {
            Some(at) => at,
            None => {
                let fresh = AdjacencyList::new();
                let at = self.relationships.insert(relationship_key.clone(), fresh);
                assert(fresh@ == old(self).relation(relationship_key@));
                at
            },
        };
        proof {
            self.relationships.lemma_position_holds(relationship_key@);
        }
        let ghost before = self.relationships.values();
        let list = self.relationships.value_at_mut(at);
        list.add(from, to);
        proof {
            let goal = old(self).relation(relationship_key@).with_edge(from@, to@);
            assert(self.relationships.values()[at as int]@ == goal);
            if old(self).relation_names().contains(relationship_key@) {
                assert(self.relations() =~= old(self).relations().update(at as int, goal));
            } else {
                assert(self.relations() =~= old(self).relations().push(goal));
            }
        }
        Ok(())
    }

    /// The targets of `entity_id`'s edges in the first relationship in which
    /// it is a source.
    pub fn get_neighbors(&self, entity_id: &String) -> (found: Option<&Vec<String>>)
        requires
            self.wf(),
        ensures
            match found {
                Some(list) => neighbors_in(self.relations(), entity_id@) == Some(texts(list@)),
                None => neighbors_in(self.relations(), entity_id@).is_none(),
            },
    {
        let n = self.relationships.len();
        let mut r: usize = 0;
        assert(self.relations().skip(0) =~= self.relations());
        while r < n
            invariant
                self.wf(),
                n == self.relations().len(),
                r <= n,
                neighbors_in(self.relations(), entity_id@) == neighbors_in(self.relations().skip(r as int), entity_id@),
            decreases n - r,
        {
            proof {
                let rest = self.relations().skip(r as int);
                assert(rest.first() == self.relationships.values()[r as int]@);
                assert(rest.drop_first() =~= self.relations().skip(r as int + 1));
            }
            match self.relationships.value_at(r).neighbors(entity_id) {
                Some(list) => {
                    return Some(list);
                },
                None => {},
            }
            r += 1;
        }
        None
    }

    /// The value of the component `component_key` of the entity `entity_id`.
    pub fn get_component(&self, entity_id: &String, component_key: &String) -> (found: Option<&Value>)
        requires
            self.wf(),
        ensures
            match found {
                Some(value) => self.components_of(entity_id@).is_some() && component_of(
                    self.components_of(entity_id@).unwrap(),
                    component_key@,
                ) == Some(*value),
                None => self.components_of(entity_id@).is_none() || component_of(
                    self.components_of(entity_id@).unwrap(),
                    component_key@,
                ).is_none(),
            },
    {
        match self.entities.find(entity_id) {
            Some(i) => {
                proof {
                    self.entities.lemma_position_holds(entity_id@);
                }
                let pairs = self.entities.value_at(i);
                let mut k: usize = pairs.len();
                assert(pairs@.take(k as int) =~= pairs@);
                assert(self.components_of(entity_id@) == Some(pairs@));
                while k > 0
                    invariant
                        self.components_of(entity_id@) == Some(pairs@),
                        k <= pairs@.len(),
                        component_of(pairs@, component_key@) == component_of(pairs@.take(k as int), component_key@),
                    decreases k,
                {
                    proof {
                        let upto = pairs@.take(k as int);
                        assert(upto.last() == pairs@[k as int - 1]);
                        assert(upto.drop_last() =~= pairs@.take(k as int - 1));
                    }
                    if same_text(&pairs[k - 1].0, component_key) {
                        return Some(&pairs[k - 1].1);
                    }
                    k -= 1;
                }
                None
            },
            None => None,
        }
    }
}

/// The text of the error for a component that was not normalised for the
/// reason `reason`.
pub open spec fn component_failure_text(reason: Seq<char>) -> Seq<char> {
    "Failed to deserialize component: "@ + reason
}

/// Whether normalising the components of `graph` through `registry`, entity
/// by entity, can come to `done` for the first `i` entities and then fail on
/// the next with the error `reason`.
pub open spec fn stops_at<T, D: Fn(&Value) -> Result<T, String>, S: Fn(&T) -> Option<Value>>(
    graph: EntityGraph,
    registry: TypeRegistry<T, D, S>,
    i: int,
    done: Seq<Seq<(String, Value)>>,
    reason: Seq<char>,
) -> bool {
    &&& 0 <= i < graph.component_lists().len()
    &&& done.len() == i
    &&& forall|k: int| 0 <= k < i ==> registry.resolves(graph.component_lists()[k], #[trigger] done[k])
    &&& registry.refuses(graph.component_lists()[i], reason)
}

/// Whether `result` can come of normalising every component of `graph`
/// through `registry`: the same graph with each component normalised, or the
/// error of the first component that was not.
pub open spec fn deserialized<T, D: Fn(&Value) -> Result<T, String>, S: Fn(&T) -> Option<Value>>(
    graph: EntityGraph,
    registry: TypeRegistry<T, D, S>,
    result: Result<EntityGraph, EntityGraphError>,
) -> bool {
    match result {
        Ok(normal) => {
            &&& normal.ids() == graph.ids()
            &&& normal.relation_names() == graph.relation_names()
            &&& normal.relations() == graph.relations()
            &&& normal.component_lists().len() == graph.component_lists().len()
            &&& forall|i: int|
                0 <= i < graph.component_lists().len() ==> registry.resolves(
                    graph.component_lists()[i],
                    #[trigger] normal.component_lists()[i],
                )
        },
        Err(EntityGraphError::DeserializationError(text)) => exists|
            i: int,
            done: Seq<Seq<(String, Value)>>,
            reason: Seq<char>,
        | #[trigger] stops_at(graph, registry, i, done, reason) && text@ == component_failure_text(reason),
        Err(_) => false,
    }
}

impl EntityGraph {
    /// Normalises every component of `graph` through `registry`, each as a
    /// value of the type that its key names. The first component that is not
    /// normalised ends it, with a `DeserializationError`.
    pub fn deserialize_with_registry<T, D: Fn(&Value) -> Result<T, String>, S: Fn(&T) -> Option<Value>>(
        graph: EntityGraph,
        registry: &TypeRegistry<T, D, S>,
    ) -> (result: Result<EntityGraph, EntityGraphError>)
        requires
            graph.wf(),
            registry.wf(),
        ensures
            deserialized(graph, *registry, result),
            result.is_ok() ==> result.unwrap().wf(),
    {
        let mut normal = graph;
        let n = normal.entities.len();
        let mut i: usize = 0;
        while i < n
            invariant
                registry.wf(),
                normal.wf(),
                n == graph.component_lists().len(),
                normal.component_lists().len() == n,
                i <= n,
                normal.ids() == graph.ids(),
                normal.relationships == graph.relationships,
                forall|k: int|
                    0 <= k < i ==> registry.resolves(graph.component_lists()[k], #[trigger] normal.component_lists()[k]),
                forall|k: int| i <= k < n ==> #[trigger] normal.component_lists()[k] == graph.component_lists()[k],
            decreases n - i,
        {
            let ghost held = normal.component_lists();
            assert(held[i as int] == graph.component_lists()[i as int]);
            match registry.resolve_components(normal.entities.value_at(i)) {
                Ok(after) => {
                    normal.entities.set_value(i, after);
                    assert(normal.component_lists() =~= held.update(i as int, after@));
                },
                Err(reason) => {
                    let mut text = "Failed to deserialize component: ".to_owned();
                    text.append(reason.as_str());
                    assert(stops_at(graph, *registry, i as int, normal.component_lists().take(i as int), reason@));
                    return Err(EntityGraphError::DeserializationError(text));
                },
            }
            i += 1;
        }
        Ok(normal)
    }

    /// With a component whose key has no codec the result is an error.
    pub proof fn lemma_unregistered_key_fails<T, D: Fn(&Value) -> Result<T, String>, S: Fn(&T) -> Option<Value>>(
        graph: EntityGraph,
        registry: TypeRegistry<T, D, S>,
        result: Result<EntityGraph, EntityGraphError>,
        i: int,
        j: int,
    )
        requires
            deserialized(graph, registry, result),
            0 <= i < graph.component_lists().len(),
            0 <= j < graph.component_lists()[i].len(),
            registry.codec(graph.component_lists()[i][j].0@).is_none(),
        ensures
            result is Err,
            result.unwrap_err() is DeserializationError,
    {
        if result is Ok {
            let normal = result.unwrap();
            registry.lemma_unregistered_never_resolves(graph.component_lists()[i], normal.component_lists()[i], j);
        }
    }

    /// Where the registry can only give each component's value back, the
    /// result is the graph itself: the same ids, relationships, component
    /// keys and values.
    pub proof fn lemma_faithful_registry_keeps_graph<
        T,
        D: Fn(&Value) -> Result<T, String>,
        S: Fn(&T) -> Option<Value>,
    >(graph: EntityGraph, registry: TypeRegistry<T, D, S>, result: Result<EntityGraph, EntityGraphError>)
        requires
            deserialized(graph, registry, result),
            forall|i: int| 0 <= i < graph.component_lists().len() ==> registry.faithful_on(#[trigger] graph.component_lists()[i]),
        ensures
            result is Ok,
            result.unwrap().ids() == graph.ids(),
            result.unwrap().relation_names() == graph.relation_names(),
            result.unwrap().relations() == graph.relations(),
            result.unwrap().component_lists().len() == graph.component_lists().len(),
            forall|i: int, j: int|
                0 <= i < graph.component_lists().len() && 0 <= j < graph.component_lists()[i].len() ==> {
                    &&& result.unwrap().component_lists()[i].len() == graph.component_lists()[i].len()
                    &&& (#[trigger] result.unwrap().component_lists()[i][j]).0@ == graph.component_lists()[i][j].0@
                    &&& result.unwrap().component_lists()[i][j].1 == graph.component_lists()[i][j].1
                },
    {
        match result {
            Ok(normal) => {
                assert forall|i: int, j: int|
                    0 <= i < graph.component_lists().len() && 0 <= j < graph.component_lists()[i].len() implies {
                    &&& normal.component_lists()[i].len() == graph.component_lists()[i].len()
                    &&& (#[trigger] normal.component_lists()[i][j]).0@ == graph.component_lists()[i][j].0@
                    &&& normal.component_lists()[i][j].1 == graph.component_lists()[i][j].1
                } by {
                    registry.lemma_faithful(graph.component_lists()[i]);
                    assert(registry.resolves(graph.component_lists()[i], normal.component_lists()[i]));
                }
            },
            Err(EntityGraphError::DeserializationError(text)) => {
                let (i, done, reason) = choose|i: int, done: Seq<Seq<(String, Value)>>, reason: Seq<char>| #[trigger]
                    stops_at(graph, registry, i, done, reason) && text@ == component_failure_text(reason);
                registry.lemma_faithful(graph.component_lists()[i]);
            },
            Err(_) => {},
        }
    }
}

} // verus!
