//! Structure index for large JSON / JSONL collections: canonical key paths,
//! the structure tree in two modes, the Markdown report and the query plans
//! that read values back from the index.

pub mod db;
pub mod groups;
pub mod json;
pub mod model;
pub mod name_keys;
pub mod path_nodes;
pub mod query;
pub mod scan;
pub mod text;
pub mod tree;
pub mod tree_laws;
pub mod walk_laws;
