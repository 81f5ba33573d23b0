use graphiti::{AdjacencyList, EntityGraph, EntityGraphError, TypeRegistry};
use serde_json::Value;
use std::any::Any;

type TestGraph = EntityGraph;
type Typed = Box<dyn Any + Send>;
type Reader = Box<dyn Fn(&Value) -> Result<Typed, String>>;
type Writer = Box<dyn Fn(&Typed) -> Option<Value>>;
type Registry = TypeRegistry<Typed, Reader, Writer>;

fn register_string(registry: &mut Registry, key: &str) {
    registry.register(
        key,
        Box::new(|any: &Typed| any.downcast_ref::<String>().and_then(|v| serde_json::to_value(v).ok())),
        Box::new(|value: &Value| {
            serde_json::from_value::<String>(value.clone())
                .map(|v| Box::new(v) as Typed)
                .map_err(|e| e.to_string())
        }),
    );
}

fn register_i32(registry: &mut Registry, key: &str) {
    registry.register(
        key,
        Box::new(|any: &Typed| any.downcast_ref::<i32>().and_then(|v| serde_json::to_value(v).ok())),
        Box::new(|value: &Value| {
            serde_json::from_value::<i32>(value.clone())
                .map(|v| Box::new(v) as Typed)
                .map_err(|e| e.to_string())
        }),
    );
}

fn register_bool(registry: &mut Registry, key: &str) {
    registry.register(
        key,
        Box::new(|any: &Typed| any.downcast_ref::<bool>().and_then(|v| serde_json::to_value(v).ok())),
        Box::new(|value: &Value| {
            serde_json::from_value::<bool>(value.clone())
                .map(|v| Box::new(v) as Typed)
                .map_err(|e| e.to_string())
        }),
    );
}

fn register_f64(registry: &mut Registry, key: &str) {
    registry.register(
        key,
        Box::new(|any: &Typed| any.downcast_ref::<f64>().and_then(|v| serde_json::to_value(v).ok())),
        Box::new(|value: &Value| {
            serde_json::from_value::<f64>(value.clone())
                .map(|v| Box::new(v) as Typed)
                .map_err(|e| e.to_string())
        }),
    );
}

#[derive(Debug, PartialEq, Clone)]
pub struct Component5 {
    field1: String,
    field2: i32,
}

fn component5_to_value(component: &Component5) -> Value {
    let mut fields = serde_json::Map::new();
    fields.insert("field1".to_string(), Value::from(component.field1.clone()));
    fields.insert("field2".to_string(), Value::from(component.field2));
    Value::Object(fields)
}

fn component5_from_value(value: &Value) -> Result<Component5, String> {
    let fields = value.as_object().ok_or("expected a map".to_string())?;
    let field1 = fields
        .get("field1")
        .and_then(|v| v.as_str())
        .ok_or("missing field `field1`".to_string())?;
    let field2 = fields
        .get("field2")
        .and_then(|v| v.as_i64())
        .ok_or("missing field `field2`".to_string())?;
    Ok(Component5 {
        field1: field1.to_string(),
        field2: field2 as i32,
    })
}

fn register_component5(registry: &mut Registry, key: &str) {
    registry.register(
        key,
        Box::new(|any: &Typed| any.downcast_ref::<Component5>().map(component5_to_value)),
        Box::new(|value: &Value| component5_from_value(value).map(|v| Box::new(v) as Typed)),
    );
}

fn id(text: &str) -> String {
    text.to_string()
}

fn diamond() -> TestGraph {
    let mut graph = TestGraph::new();

    // Adding entities
    graph.add_entity("A".to_string(), Vec::new()).unwrap();
    graph.add_entity("B".to_string(), Vec::new()).unwrap();
    graph.add_entity("C".to_string(), Vec::new()).unwrap();
    graph.add_entity("D".to_string(), Vec::new()).unwrap();

    // Adding edges
    graph
        .add_edge("relationship".to_string(), "A".to_string(), "B".to_string())
        .unwrap();
    graph
        .add_edge("relationship".to_string(), "A".to_string(), "C".to_string())
        .unwrap();
    graph
        .add_edge("relationship".to_string(), "B".to_string(), "D".to_string())
        .unwrap();
    graph
}

#[test]
fn test_add_remove_entity() {
    let mut graph = TestGraph::new();
    assert!(graph
        .add_entity(
            "entity1".to_string(),
            vec![
                ("component_name1".to_string(), Value::from("component1")),
                ("component_name2".to_string(), Value::from("component2"))
            ]
        )
        .is_ok());
    assert!(graph
        .add_entity(
            "entity1".to_string(),
            vec![("component_name3".to_string(), Value::from("component3"))]
        )
        .is_err());

    graph.remove_entity(&"entity1".to_string());
    assert_eq!(graph.contains_entity(&"entity1".to_string()), false);
}

#[test]
fn test_add_edge() {
    let mut graph = TestGraph::new();
    graph
        .add_entity(
            "entity1".to_string(),
            vec![("component_name1".to_string(), Value::from("component1"))],
        )
        .unwrap();
    graph
        .add_entity(
            "entity2".to_string(),
            vec![("component_name2".to_string(), Value::from("component2"))],
        )
        .unwrap();

    assert!(graph
        .add_edge(
            "relationship".to_string(),
            "entity1".to_string(),
            "entity2".to_string()
        )
        .is_ok());
    assert!(graph
        .add_edge(
            "relationship".to_string(),
            "entity1".to_string(),
            "entity3".to_string()
        )
        .is_err());
}

#[derive(Default)]
struct MockWorld {
    entities: Vec<MockEntity>,
}

#[derive(Default)]
struct MockEntity {
    components: std::collections::HashMap<String, Value>,
}

impl MockWorld {
    fn create_entity(&mut self) -> &mut MockEntity {
        self.entities.push(MockEntity::default());
        self.entities.last_mut().unwrap()
    }
}

impl MockEntity {
    fn add_component(&mut self, key: &str, component: Value) {
        self.components.insert(key.to_string(), component);
    }
}

#[test]
fn test_populate_mock_ecs_with_entity_graph() {
    let mut graph = TestGraph::new();
    graph
        .add_entity(
            "entity1".to_string(),
            vec![
                ("position".to_string(), Value::from("x:10, y:20")),
                ("velocity".to_string(), Value::from("dx:5, dy:-5")),
            ],
        )
        .unwrap();

    let mut world = MockWorld::default();

    for id in graph.entity_ids() {
        let components = graph.components(&id).unwrap();
        let entity = world.create_entity();
        for (component_name, component_data) in components {
            entity.add_component(component_name, component_data.clone());
        }
    }

    assert_eq!(world.entities.len(), 1);
    let mock_entity = &world.entities[0];
    assert_eq!(
        mock_entity.components.get("position").unwrap(),
        &Value::from("x:10, y:20")
    );
    assert_eq!(
        mock_entity.components.get("velocity").unwrap(),
        &Value::from("dx:5, dy:-5")
    );
}

fn sample_graph() -> TestGraph {
    let mut graph = TestGraph::new();
    graph
        .add_entity(
            "entity1".to_string(),
            vec![
                ("component_name1".to_string(), Value::from("component1")),
                ("component_name2".to_string(), Value::from(1234)),
                ("component_name3".to_string(), Value::from(true)),
            ],
        )
        .unwrap();
    graph
        .add_entity(
            "entity2".to_string(),
            vec![("component_name4".to_string(), Value::from(5.67))],
        )
        .unwrap();
    graph
        .add_edge(
            "relationship".to_string(),
            "entity1".to_string(),
            "entity2".to_string(),
        )
        .unwrap();
    // Create an instance of Component5 and serialize it as a component for an entity
    let comp5 = Component5 {
        field1: "some_data".to_string(),
        field2: 42,
    };
    graph
        .add_entity(
            "entity3".to_string(),
            vec![("component_name5".to_string(), component5_to_value(&comp5))],
        )
        .unwrap();
    graph
}

fn sample_registry() -> Registry {
    let mut registry = TypeRegistry::new();
    register_string(&mut registry, "component_name1");
    register_i32(&mut registry, "component_name2");
    register_bool(&mut registry, "component_name3");
    register_f64(&mut registry, "component_name4");
    register_component5(&mut registry, "component_name5");
    registry
}

#[test]
fn test_serialization_and_deserialization() {
    let graph = sample_graph();

    // Here we set up the type registry for deserialization
    let registry = sample_registry();

    let deserialized = TestGraph::deserialize_with_registry(graph.clone(), &registry).unwrap();

    assert_eq!(graph, deserialized);
}

#[test]
fn test_dfs_traversal() {
    let graph = diamond();

    let traversal_result = graph.traverse_dfs("A".to_string()).unwrap();
    let expected_traversal = vec![
        "A".to_string(),
        "C".to_string(),
        "B".to_string(),
        "D".to_string(),
    ];

    assert_eq!(traversal_result, expected_traversal);
}

#[test]
fn test_bfs_traversal() {
    let graph = diamond();

    let traversal_result = graph.traverse_bfs("A".to_string()).unwrap();
    let expected_traversal = vec![
        "A".to_string(),
        "B".to_string(),
        "C".to_string(),
        "D".to_string(),
    ];

    assert_eq!(traversal_result, expected_traversal);
}

#[derive(Debug, PartialEq, Eq, Hash, Clone)]
enum ComponentKey {
    Position,
    Velocity,
}

impl ComponentKey {
    fn key(&self) -> String {
        format!("{:?}", self)
    }
}

#[test]
fn test_enum_key() {
    let mut graph = EntityGraph::new();
    graph
        .add_entity(
            "entity1".to_string(),
            vec![
                (
                    ComponentKey::Position.key(),
                    serde_json::Value::from("x:10, y:20"),
                ),
                (
                    ComponentKey::Velocity.key(),
                    serde_json::Value::from("dx:5, dy:-5"),
                ),
            ],
        )
        .unwrap();

    let position = graph.get_component(&"entity1".to_string(), &ComponentKey::Position.key());
    assert_eq!(position, Some(&serde_json::Value::from("x:10, y:20")));
}

#[test]
fn test_dfs_print_components() {
    // Create an entity graph and add entities with components
    let mut graph = TestGraph::new();
    graph
        .add_entity(
            "A".to_string(),
            vec![
                ("type1".to_string(), serde_json::Value::from("data1")),
                ("type2".to_string(), serde_json::Value::from(123)),
            ],
        )
        .unwrap();
    graph
        .add_entity(
            "B".to_string(),
            vec![("type1".to_string(), serde_json::Value::from("data2"))],
        )
        .unwrap();
    graph.add_entity("C".to_string(), Vec::new()).unwrap();

    // Add edges for traversal
    graph
        .add_edge("relationship".to_string(), "A".to_string(), "B".to_string())
        .unwrap();
    graph
        .add_edge("relationship".to_string(), "A".to_string(), "C".to_string())
        .unwrap();

    // Set up the type registry
    let mut registry: Registry = TypeRegistry::new();
    register_string(&mut registry, "type1");
    register_i32(&mut registry, "type2");

    // Perform DFS traversal and print components
    let traversal_result = graph.traverse_dfs("A".to_string()).unwrap();

    // Expected traversal order and component count
    let expected_order = vec!["A", "C", "B"];
    let expected_components = vec![2, 0, 1];

    // Check traversal order
    assert_eq!(traversal_result, expected_order);

    for (index, entity_id) in traversal_result.iter().enumerate() {
        if let Some(components) = graph.components(entity_id) {
            // Assert the number of components
            assert_eq!(components.len(), expected_components[index]);

            // Bonus: Check component types
            for (type_key, value) in components {
                assert!(
                    registry.deserialize_value(type_key, value).is_ok(),
                    "Component of type {} is NOT of expected type.",
                    type_key
                );
            }
        }
    }
}

#[test]
fn unregistered_key_is_a_deserialization_error() {
    let graph = sample_graph();
    let mut registry: Registry = TypeRegistry::new();
    register_string(&mut registry, "component_name1");
    register_i32(&mut registry, "component_name2");
    match TestGraph::deserialize_with_registry(graph, &registry) {
        Err(EntityGraphError::DeserializationError(text)) => assert_eq!(
            text,
            "Failed to deserialize component: No deserialization function found for type: component_name3"
        ),
        other => panic!("unexpected: {:?}", other),
    }
}

#[test]
fn value_of_another_type_is_a_deserialization_error() {
    let mut graph = TestGraph::new();
    graph
        .add_entity(id("e"), vec![(id("flag"), Value::from("not a bool"))])
        .unwrap();
    let mut registry: Registry = TypeRegistry::new();
    register_bool(&mut registry, "flag");
    match TestGraph::deserialize_with_registry(graph, &registry) {
        Err(EntityGraphError::DeserializationError(text)) => {
            assert!(text.starts_with("Failed to deserialize component: invalid type"))
        }
        other => panic!("unexpected: {:?}", other),
    }
}

#[test]
fn deserialize_value_normalises_through_the_codec() {
    let mut registry: Registry = TypeRegistry::new();
    // a codec that reads a number and writes its double: what comes back is
    // what was written, not what went in
    registry.register(
        "double",
        Box::new(|any: &Typed| any.downcast_ref::<i64>().map(|n| Value::from(n * 2))),
        Box::new(|value: &Value| {
            value
                .as_i64()
                .map(|n| Box::new(n) as Typed)
                .ok_or("not a number".to_string())
        }),
    );
    // a codec whose writer does not know what its reader gives
    registry.register(
        "lopsided",
        Box::new(|any: &Typed| any.downcast_ref::<String>().map(|s| Value::from(s.clone()))),
        Box::new(|value: &Value| value.as_i64().map(|n| Box::new(n) as Typed).ok_or("no".to_string())),
    );
    assert_eq!(registry.deserialize_value("double", &Value::from(21)), Ok(Value::from(42)));
    assert_eq!(
        registry.deserialize_value("double", &Value::from("x")),
        Err("not a number".to_string())
    );
    assert_eq!(
        registry.deserialize_value("lopsided", &Value::from(1)),
        Err("Failed to re-serialize for: lopsided".to_string())
    );
    assert_eq!(
        registry.deserialize_value("absent", &Value::from(1)),
        Err("No deserialization function found for type: absent".to_string())
    );
    assert!(registry.is_registered("double"));
    assert!(!registry.is_registered("absent"));
}

#[test]
fn serialize_value_goes_through_the_writer() {
    let mut registry: Registry = TypeRegistry::new();
    register_i32(&mut registry, "n");
    let seven: Typed = Box::new(7i32);
    let text: Typed = Box::new("seven".to_string());
    assert_eq!(registry.serialize_value("n", &seven), Ok(Value::from(7)));
    assert_eq!(
        registry.serialize_value("n", &text),
        Err("Failed to re-serialize for: n".to_string())
    );
    assert_eq!(
        registry.serialize_value("absent", &seven),
        Err("No serialization function found for type: absent".to_string())
    );
}

#[test]
fn last_registration_wins() {
    let mut registry: Registry = TypeRegistry::new();
    register_bool(&mut registry, "k");
    assert!(registry.deserialize_value("k", &Value::from(7)).is_err());
    register_i32(&mut registry, "k");
    assert_eq!(registry.deserialize_value("k", &Value::from(7)), Ok(Value::from(7)));
    assert!(registry.deserialize_value("k", &Value::from(true)).is_err());
}

#[test]
fn add_edge_errors_and_relationships() {
    let mut graph = diamond();
    assert!(matches!(
        graph.add_edge(id("r"), id("A"), id("Z")),
        Err(EntityGraphError::EdgeError)
    ));
    assert!(matches!(
        graph.add_edge(id("r"), id("Z"), id("A")),
        Err(EntityGraphError::EdgeError)
    ));
    assert!(matches!(
        graph.add_entity(id("A"), Vec::new()),
        Err(EntityGraphError::EntityAlreadyExists)
    ));
    // the first relationship in which an entity is a source gives its neighbours
    graph.add_edge(id("other"), id("A"), id("D")).unwrap();
    graph.add_edge(id("other"), id("C"), id("A")).unwrap();
    assert_eq!(graph.get_neighbors(&id("A")), Some(&vec![id("B"), id("C")]));
    assert_eq!(graph.get_neighbors(&id("C")), Some(&vec![id("A")]));
    assert_eq!(graph.get_neighbors(&id("D")), None);
    // edges are not merged
    graph.add_edge(id("relationship"), id("A"), id("B")).unwrap();
    assert_eq!(graph.get_neighbors(&id("A")), Some(&vec![id("B"), id("C"), id("B")]));
}

#[test]
fn remove_entity_purges_sources_and_targets() {
    let mut graph = diamond();
    graph.add_edge(id("other"), id("D"), id("B")).unwrap();
    graph.add_edge(id("other"), id("B"), id("B")).unwrap();
    graph.remove_entity(&id("B"));
    assert_eq!(graph.entity_ids(), vec![id("A"), id("C"), id("D")]);
    assert_eq!(graph.get_neighbors(&id("A")), Some(&vec![id("C")]));
    assert_eq!(graph.get_neighbors(&id("B")), None);
    assert_eq!(graph.get_neighbors(&id("D")), Some(&Vec::new()));
    assert_eq!(graph.traverse_dfs(id("A")).unwrap(), vec![id("A"), id("C")]);
    // removing what is not there changes nothing
    let before = graph.clone();
    graph.remove_entity(&id("nobody"));
    assert_eq!(graph, before);
}

#[test]
fn traversals_on_cycles_and_strangers() {
    let mut graph = diamond();
    graph.add_edge(id("relationship"), id("D"), id("A")).unwrap();
    graph.add_edge(id("relationship"), id("C"), id("D")).unwrap();
    graph.add_edge(id("relationship"), id("A"), id("A")).unwrap();
    assert_eq!(
        graph.traverse_dfs(id("A")).unwrap(),
        vec![id("A"), id("C"), id("D"), id("B")]
    );
    assert_eq!(
        graph.traverse_bfs(id("A")).unwrap(),
        vec![id("A"), id("B"), id("C"), id("D")]
    );
    assert_eq!(graph.traverse_dfs(id("D")).unwrap(), vec![id("D"), id("A"), id("C"), id("B")]);
    assert_eq!(graph.traverse_bfs(id("D")).unwrap(), vec![id("D"), id("A"), id("B"), id("C")]);
    // a start that is no entity is still visited
    assert_eq!(graph.traverse_dfs(id("Z")), Some(vec![id("Z")]));
    assert_eq!(graph.traverse_bfs(id("Z")), Some(vec![id("Z")]));
}

#[test]
fn adjacency_lists_by_hand() {
    let mut list = AdjacencyList::new();
    list.declare(id("lonely"));
    list.add(id("a"), id("b"));
    list.add(id("a"), id("c"));
    list.declare(id("a"));
    assert_eq!(list.sources(), vec![id("lonely"), id("a")]);
    assert_eq!(list.neighbors(&id("lonely")), Some(&Vec::new()));
    assert_eq!(list.neighbors(&id("a")), Some(&vec![id("b"), id("c")]));
    assert_eq!(list.neighbors(&id("b")), None);

    let mut graph = diamond();
    graph.set_relationship(id("second"), list.clone());
    assert_eq!(graph.relationship_keys(), vec![id("relationship"), id("second")]);
    assert_eq!(graph.relationship(&id("second")), Some(&list));
    assert_eq!(graph.relationship(&id("third")), None);
    // a relationship that is set again keeps its place
    graph.set_relationship(id("relationship"), AdjacencyList::new());
    assert_eq!(graph.relationship_keys(), vec![id("relationship"), id("second")]);
    assert_eq!(graph.get_neighbors(&id("a")), Some(&vec![id("b"), id("c")]));
    assert_eq!(graph.get_neighbors(&id("A")), None);

    list.purge(&id("b"));
    assert_eq!(list.neighbors(&id("a")), Some(&vec![id("c")]));
    list.purge(&id("a"));
    assert_eq!(list.sources(), vec![id("lonely")]);
}

#[test]
fn both_traversals_visit_what_can_be_reached_once() {
    let mut graph = diamond();
    graph.add_entity(id("E"), Vec::new()).unwrap();
    graph.add_entity(id("F"), Vec::new()).unwrap();
    graph.add_edge(id("relationship"), id("D"), id("A")).unwrap();
    graph.add_edge(id("relationship"), id("A"), id("B")).unwrap();
    graph.add_edge(id("relationship"), id("C"), id("D")).unwrap();
    // E leads into the rest, nothing leads to E or F
    graph.add_edge(id("relationship"), id("E"), id("A")).unwrap();
    for start in ["A", "B", "C", "D"] {
        let mut depth_first = graph.traverse_dfs(id(start)).unwrap();
        let mut breadth_first = graph.traverse_bfs(id(start)).unwrap();
        assert_eq!(depth_first[0], start);
        assert_eq!(breadth_first[0], start);
        depth_first.sort();
        breadth_first.sort();
        assert_eq!(depth_first, vec![id("A"), id("B"), id("C"), id("D")]);
        assert_eq!(breadth_first, depth_first);
    }
    assert_eq!(
        graph.traverse_bfs(id("E")).unwrap(),
        vec![id("E"), id("A"), id("B"), id("C"), id("D")]
    );
    assert_eq!(graph.traverse_dfs(id("F")).unwrap(), vec![id("F")]);
}

#[test]
fn get_component_takes_the_last_value_of_a_key() {
    let mut graph = TestGraph::new();
    graph
        .add_entity(
            id("e"),
            vec![
                (id("k"), Value::from(1)),
                (id("other"), Value::from(2)),
                (id("k"), Value::from(3)),
            ],
        )
        .unwrap();
    assert_eq!(graph.get_component(&id("e"), &id("k")), Some(&Value::from(3)));
    assert_eq!(graph.get_component(&id("e"), &id("other")), Some(&Value::from(2)));
    assert_eq!(graph.get_component(&id("e"), &id("absent")), None);
    assert_eq!(graph.get_component(&id("nobody"), &id("k")), None);
}

#[test]
fn entity_graph_error_messages() {
    assert_eq!(
        EntityGraphError::EntityAlreadyExists.message(),
        "Entity with this ID already exists"
    );
    assert_eq!(
        EntityGraphError::EntityNotFound.message(),
        "Entity with this ID does not exist"
    );
    assert_eq!(
        EntityGraphError::EdgeError.message(),
        "One of the entity IDs does not exist"
    );
    assert_eq!(
        EntityGraphError::SerializationError("s".to_string()).message(),
        "Serialization error: s"
    );
    assert_eq!(
        EntityGraphError::DeserializationError("d".to_string()).message(),
        "Deserialization error: d"
    );
}
