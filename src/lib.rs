//! A schema-less JSON document store. Documents are decomposed into a
//! relational catalog of dynamically created and widened structures, or
//! into a tree of parent-linked nodes, and reconstructed from them; the
//! catalog also supports attribute search and age-based retention.

use vstd::prelude::*;

pub mod error;
pub mod json;
pub mod laws;
pub mod models;
pub mod relational;
pub mod store;
pub mod tree;

pub use error::StoreError;
pub use json::Json;
pub use models::{JsonData, table_name_for_uri};
pub use relational::WritePolicy;
pub use store::RelationalStore;
pub use tree::{SortKey, SortOrder, TreeStore};

verus! {

} // verus!
