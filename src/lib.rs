//! Loading, merging and schema-checking of `key = value` configuration trees.
pub mod config;
pub mod text;
pub mod table;
pub mod file_parser;
pub mod numeric;
pub mod schema;
pub mod directory_parser;
