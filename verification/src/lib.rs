//! An in-memory entity-relationship store: named entities carrying typed
//! components, connected by independently named directed relation graphs.

pub mod anymap;
pub mod description;
pub mod digraph;
pub mod graph;
pub mod reach;
pub mod registry;
pub mod table;
pub mod traverse;

pub use self::anymap::{AnyMap, AnyMapIter};
pub use self::description::{Description, DescriptionBuilder, Error, GraphContainer};
pub use self::graph::{AdjacencyList, EntityGraph, EntityGraphError};
pub use self::registry::TypeRegistry;
pub use self::table::NameTable;
