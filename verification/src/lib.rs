//! Entity-relationship diagrams of a database schema: the schema model,
//! the box layout, and the three output formats (Graphviz, Mermaid and a
//! character drawing with routed edges).
pub mod text;
pub mod schema;
pub mod layout;
pub mod emit;
