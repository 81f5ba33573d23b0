use graphiti::{Description, DescriptionBuilder, Error};
use std::any::TypeId;

type Result<T, E = Error> = std::result::Result<T, E>;

fn two_nodes() -> Result<DescriptionBuilder> {
    let mut builder = DescriptionBuilder::new();
    builder.add_node("node1".to_string(), TypeId::of::<(&str,)>())?;
    builder.add_node("node2".to_string(), TypeId::of::<(&str,)>())?;
    Ok(builder)
}

fn abc() -> Description {
    let mut builder = DescriptionBuilder::new();
    for name in ["a", "b", "c"] {
        builder.add_node(name.to_string(), TypeId::of::<(u8,)>()).unwrap();
    }
    builder.add_edge("e1", "a", vec!["b"]).unwrap();
    builder.add_edge("e2", "a", vec!["c", "b"]).unwrap();
    builder.add_edge("e2", "b", vec!["c"]).unwrap();
    builder.build()
}

#[test]
fn test_description_builder() -> Result<()> {
    let mut builder = two_nodes()?;
    builder.add_edge("edge1", "node1", vec!["node2"])?;
    let description = builder.build();
    assert_eq!(description.graphs.contains_key("edge1"), true);
    Ok(())
}

#[test]
fn test_add_node_with_empty_name() -> Result<()> {
    let mut builder = DescriptionBuilder::new();
    let result = builder.add_node("".to_string(), TypeId::of::<(&str,)>());
    assert_eq!(result.is_err(), true);
    Ok(())
}

#[test]
fn test_add_edge_with_empty_name() -> Result<()> {
    let mut builder = DescriptionBuilder::new();
    let result = builder.add_edge("", "source", vec!["target"]);
    assert_eq!(result.is_err(), true);
    Ok(())
}

#[test]
fn test_add_edge_with_missing_node() -> Result<()> {
    let mut builder = DescriptionBuilder::new();
    builder.add_node("source".to_string(), TypeId::of::<(&str,)>())?;
    let result = builder.add_edge("edge1", "source", vec!["missing"]);
    assert_eq!(result.is_err(), true);
    Ok(())
}

#[test]
fn test_dsl_macro() -> Result<()> {
    let mut builder = DescriptionBuilder::new();
    builder.add_node("node1".to_string(), TypeId::of::<(String, i32)>())?;
    builder.add_node("node2".to_string(), TypeId::of::<(String, i32, f32)>())?;
    builder.add_node("node3".to_string(), TypeId::of::<()>())?;
    builder.add_edge("edge_name", "node1", vec!["node2"])?;
    builder.add_edge("edge_name_2", "node1", vec!["node2", "node3"])?;
    let description = builder.build();
    assert!(description.graphs.contains_key("edge_name"));
    Ok(())
}

#[test]
fn test_outgoing_edges() -> Result<()> {
    let mut builder = two_nodes()?;
    builder.add_edge("edge1", "node1", vec!["node2"])?;
    let description = builder.build();

    let edges = description.outgoing_edges("node1")?;
    assert_eq!(edges, vec!["edge1"]);
    Ok(())
}

#[test]
fn test_incoming_edges() -> Result<()> {
    let mut builder = two_nodes()?;
    builder.add_edge("edge1", "node2", vec!["node1"])?;
    let description = builder.build();

    let edges = description.incoming_edges("node1")?;
    assert_eq!(edges, vec!["edge1"]);
    Ok(())
}

#[test]
fn test_connected_nodes() -> Result<()> {
    let mut builder = two_nodes()?;
    builder.add_node("node3".to_string(), TypeId::of::<(&str,)>())?;
    builder.add_edge("edge1", "node1", vec!["node2"])?;
    builder.add_edge("edge2", "node1", vec!["node3"])?;
    let description = builder.build();

    let mut nodes = description.connected_nodes("node1")?;
    nodes.sort(); // Sort the nodes for consistent comparison
    let expected_nodes = vec!["node2", "node3"];
    assert_eq!(nodes, expected_nodes);
    Ok(())
}

#[test]
fn test_has_direct_edge() -> Result<()> {
    let mut builder = two_nodes()?;
    builder.add_edge("edge1", "node1", vec!["node2"])?;
    let description = builder.build();

    assert_eq!(description.has_direct_edge("node1", "node2")?, true);
    assert_eq!(description.has_direct_edge("node2", "node1")?, false);
    Ok(())
}

#[derive(Debug, Copy, Clone)]
struct ComponentA(u32);

#[derive(Debug, Copy, Clone)]
struct ComponentB(u32);

#[test]
fn test_add_node_duplicate_component() {
    let mut builder = DescriptionBuilder::new();
    let _ = (ComponentA(10), ComponentB(30));

    // Adding a node with ComponentA
    builder
        .add_node("node1".to_string(), TypeId::of::<(ComponentA,)>())
        .unwrap();

    // Attempting to add ComponentA again to the same node should result in an error
    let result = builder.add_node("node1".to_string(), TypeId::of::<(ComponentA,)>());
    assert!(result.is_err());

    // However, adding a different component type (ComponentB) should be fine
    let result = builder.add_node("node1".to_string(), TypeId::of::<(ComponentB,)>());
    assert!(result.is_ok());
}

#[test]
fn add_node_errors_are_invalid_parameters_and_change_nothing() {
    let mut builder = DescriptionBuilder::new();
    assert!(matches!(
        builder.add_node(String::new(), TypeId::of::<u8>()),
        Err(Error::InvalidParameters)
    ));
    assert_eq!(builder.add_node("n".to_string(), TypeId::of::<u8>()).unwrap(), 0);
    assert!(matches!(
        builder.add_node("n".to_string(), TypeId::of::<u8>()),
        Err(Error::InvalidParameters)
    ));
    // the refused calls gave out no handle
    assert_eq!(builder.add_node("m".to_string(), TypeId::of::<u8>()).unwrap(), 1);
    // the same name with another type is bound to a new handle
    assert_eq!(builder.add_node("n".to_string(), TypeId::of::<u16>()).unwrap(), 2);
}

#[test]
fn add_edge_error_kinds() {
    let mut builder = DescriptionBuilder::new();
    builder.add_node("a".to_string(), TypeId::of::<u8>()).unwrap();
    builder.add_node("b".to_string(), TypeId::of::<u8>()).unwrap();
    assert!(matches!(builder.add_edge("", "a", vec!["b"]), Err(Error::InvalidEdgeName)));
    // an empty relation name is reported before a missing node
    assert!(matches!(builder.add_edge("", "x", vec!["y"]), Err(Error::InvalidEdgeName)));
    match builder.add_edge("r", "x", vec!["y"]) {
        Err(Error::NodeNotFound { name }) => assert_eq!(name, "x"),
        other => panic!("unexpected: {:?}", other),
    }
    match builder.add_edge("r", "a", vec!["b", "y", "z"]) {
        Err(Error::NodeNotFound { name }) => assert_eq!(name, "y"),
        other => panic!("unexpected: {:?}", other),
    }
    // nothing was added by the refused calls
    let description = builder.build();
    assert!(!description.graphs.contains_key("r"));
    assert_eq!(description.outgoing_edges("a").unwrap(), Vec::<String>::new());
}

#[test]
fn repeated_edges_are_parallel() {
    let mut builder = DescriptionBuilder::new();
    builder.add_node("a".to_string(), TypeId::of::<u8>()).unwrap();
    builder.add_node("b".to_string(), TypeId::of::<u8>()).unwrap();
    builder.add_edge("r", "a", vec!["b"]).unwrap();
    builder.add_edge("r", "a", vec!["b"]).unwrap();
    let description = builder.build();
    assert_eq!(description.outgoing_edges("a").unwrap(), vec!["r", "r"]);
    assert_eq!(description.incoming_edges("b").unwrap(), vec!["r", "r"]);
    // both edges are there, and the neighbour they lead to is named once
    assert_eq!(description.connected_nodes("a").unwrap(), vec!["b"]);
    assert_eq!(description.graphs.len(), 1);
}

#[test]
fn queries_walk_relations_in_order_and_newest_edge_first() {
    let description = abc();
    assert_eq!(description.outgoing_edges("a").unwrap(), vec!["e1", "e2", "e2"]);
    assert_eq!(description.incoming_edges("b").unwrap(), vec!["e1", "e2"]);
    assert_eq!(description.incoming_edges("c").unwrap(), vec!["e2", "e2"]);
    assert_eq!(description.incoming_edges("a").unwrap(), Vec::<String>::new());
    assert_eq!(description.connected_nodes("a").unwrap(), vec!["b", "c"]);
    assert_eq!(description.connected_nodes("b").unwrap(), vec!["c"]);
    assert_eq!(description.connected_nodes("c").unwrap(), Vec::<String>::new());
}

#[test]
fn connected_nodes_names_a_neighbour_where_the_walk_meets_it_first() {
    let mut builder = DescriptionBuilder::new();
    for name in ["a", "b", "c", "d"] {
        builder.add_node(name.to_string(), TypeId::of::<(u8,)>()).unwrap();
    }
    builder.add_edge("first", "a", vec!["c"]).unwrap();
    builder.add_edge("second", "a", vec!["c", "b", "d", "b"]).unwrap();
    builder.add_edge("third", "a", vec!["d", "a"]).unwrap();
    let description = builder.build();
    // the walk meets c | b d b c | a d
    assert_eq!(description.connected_nodes("a").unwrap(), vec!["c", "b", "d", "a"]);
    assert_eq!(
        description.outgoing_edges("a").unwrap(),
        vec!["first", "second", "second", "second", "second", "third", "third"]
    );
}

#[test]
fn has_direct_edge_over_all_relations() {
    let description = abc();
    assert_eq!(description.has_direct_edge("a", "b").unwrap(), true);
    assert_eq!(description.has_direct_edge("a", "c").unwrap(), true);
    assert_eq!(description.has_direct_edge("b", "c").unwrap(), true);
    assert_eq!(description.has_direct_edge("c", "a").unwrap(), false);
    assert_eq!(description.has_direct_edge("b", "a").unwrap(), false);
    assert_eq!(description.has_direct_edge("a", "a").unwrap(), false);
}

#[test]
fn queries_report_the_missing_node() {
    let description = abc();
    for result in [
        description.outgoing_edges("zz"),
        description.incoming_edges("zz"),
        description.connected_nodes("zz"),
    ] {
        match result {
            Err(Error::NodeNotFound { name }) => assert_eq!(name, "zz"),
            other => panic!("unexpected: {:?}", other),
        }
    }
    match description.has_direct_edge("zz", "yy") {
        Err(Error::NodeNotFound { name }) => assert_eq!(name, "zz"),
        other => panic!("unexpected: {:?}", other),
    }
    match description.has_direct_edge("a", "yy") {
        Err(Error::NodeNotFound { name }) => assert_eq!(name, "yy"),
        other => panic!("unexpected: {:?}", other),
    }
}

#[test]
fn self_loop_is_both_outgoing_and_incoming() {
    let mut builder = DescriptionBuilder::new();
    builder.add_node("a".to_string(), TypeId::of::<u8>()).unwrap();
    builder.add_edge("loop", "a", vec!["a"]).unwrap();
    let description = builder.build();
    assert_eq!(description.outgoing_edges("a").unwrap(), vec!["loop"]);
    assert_eq!(description.incoming_edges("a").unwrap(), vec!["loop"]);
    assert_eq!(description.connected_nodes("a").unwrap(), vec!["a"]);
    assert_eq!(description.has_direct_edge("a", "a").unwrap(), true);
}

#[test]
fn renamed_handle_is_passed_over() {
    let mut builder = DescriptionBuilder::new();
    builder.add_node("a".to_string(), TypeId::of::<u8>()).unwrap();
    builder.add_node("b".to_string(), TypeId::of::<u8>()).unwrap();
    builder.add_edge("r", "a", vec!["b"]).unwrap();
    // "b" is bound to a new handle; the old one keeps its vertex but has no name
    builder.add_node("b".to_string(), TypeId::of::<u16>()).unwrap();
    let description = builder.build();
    assert_eq!(description.connected_nodes("a").unwrap(), Vec::<String>::new());
    assert_eq!(description.has_direct_edge("a", "b").unwrap(), false);
    assert_eq!(description.outgoing_edges("a").unwrap(), vec!["r"]);
}

#[test]
fn capacity_checks() {
    let mut builder = DescriptionBuilder::new();
    builder.add_node("a".to_string(), TypeId::of::<u8>()).unwrap();
    builder.add_edge("r", "a", vec!["a"]).unwrap();
    let description = builder.build();
    assert!(description.graphs.has_room("r", 10));
    assert!(description.graphs.has_room("other", 4294967294));
    assert!(!description.graphs.has_room("other", 4294967295));
    assert!(!description.graphs.has_room("r", 4294967294));
}

#[test]
fn room_counts_edges_as_well_as_vertices() {
    let mut builder = DescriptionBuilder::new();
    builder.add_node("a".to_string(), TypeId::of::<u8>()).unwrap();
    builder.add_edge("two", "a", vec!["a", "a"]).unwrap();
    builder.add_edge("three", "a", vec!["a", "a", "a"]).unwrap();
    // one vertex each: the vertices leave room for 4294967293 more edges
    assert!(builder.has_room("two", 4294967293));
    assert!(!builder.has_room("two", 4294967294));
    // three edges leave room for one edge less
    assert!(builder.has_room("three", 4294967292));
    assert!(!builder.has_room("three", 4294967293));
}

#[test]
fn error_messages() {
    assert_eq!(
        Error::NodeNotFound { name: "n1".to_string() }.message(),
        "Node 'n1' not found"
    );
    assert_eq!(Error::InvalidParameters.message(), "Invalid parameters");
    assert_eq!(Error::InvalidEdgeName.message(), "Invalid edge name");
    assert_eq!(
        Error::AccessComponentRegistry.message(),
        "Failed to access component registry"
    );
}
