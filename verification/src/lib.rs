//! Python user-defined functions for DuckDB: the definitions, their parsing
//! and the registry that holds them.
pub mod executor;
pub mod laws;
pub mod output_laws;
pub mod parser;
pub mod registry;
pub mod create_function_vtab;
pub mod text;
pub mod type_laws;
pub mod types;
pub mod values;
