//! Normalization of JSON-like tree values: pruning of null and empty
//! substructures, content-aware deduplication of array elements, and
//! similarity-based merging of array elements that share a shape.
pub mod api;
pub mod dedup;
pub mod equiv;
pub mod extend;
pub mod fold;
pub mod laws;
pub mod merge;
pub mod prune;
pub mod value;

pub use api::JsonUtils;
pub use merge::merge_similar_objects;
pub use prune::remove_nulls;
pub use value::Value;
