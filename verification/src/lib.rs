//! Lookup library for a local copy of the NCBI taxonomy database.
//!
//! The taxonomy is a multi-root forest of taxa, each identified by a
//! 32-bit id and optionally carrying a rank and a scientific name.  Two
//! interchangeable stores answer the same query interface: an in-memory
//! forest built from the `nodes.dmp` / `names.dmp` dump files, and a
//! store over materialized-path rows of a persisted table.

pub mod codec;
pub mod distance;
pub mod errors;
pub mod file_taxonomy;
pub mod interface;
pub mod laws;
pub mod loader;
pub mod model;
pub mod models;
pub mod parser;
pub mod sqlite_taxonomy;
pub mod text;

pub use errors::NcbiTaxonomyError;
