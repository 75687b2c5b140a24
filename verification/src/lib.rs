//! A versioned store of folders and notes.
//!
//! Folders form a forest, notes live in folders, and deleting a folder takes
//! its subtree along. The schema of the store grows in steps: a catalog holds
//! the steps in the order of their versions, and the migration engine applies
//! to a store the steps that it has yet to get, recording each once it is
//! applied in full.
//!
//! - [`title`]: the title of a note, derived from its content.
//! - [`schema`]: the tables and columns of the store at each version.
//! - [`catalog`]: the migration steps and their statements.
//! - [`model`]: the store as a mathematical value, and what each operation
//!   makes of it.
//! - [`laws`]: what holds of the store whatever is done to it.
//! - [`store`]: the store itself, held in memory.
//! - [`snapshot`]: the contents of a store as plain rows.
//! - [`engine`]: the migration engine.
//! - [`export`]: the formats in which a note is written to a file.

pub mod catalog;
pub mod engine;
pub mod export;
pub mod laws;
pub mod model;
pub mod schema;
pub mod snapshot;
pub mod store;
pub mod title;
