//! A spatial index over labeled fixed-point vectors with exact
//! k-nearest-neighbor search.
//!
//! `create_index` builds an immutable balanced partition (a kd arena) over a
//! batch of documents; `run_search` answers k-nearest queries against it by
//! branch-and-bound traversal, returning the nearest documents sorted by
//! squared Euclidean distance over the first [`points::DIM`] axes. Every
//! function is verified: results are proved sorted, complete (no stored
//! document closer than a returned one is left out), deterministic, and the
//! flat arena round-trips through `Index::to_points` / `Index::from_points`
//! unchanged. Floating-point conversion and host serialization live outside
//! this crate.

pub mod index;
pub mod laws;
pub mod points;
pub mod search;

pub use index::create_index;
pub use index::run_search;
pub use index::Index;
pub use points::DocModel;
pub use points::EmbeddedDocument;
pub use points::Query;
pub use points::SearchError;
pub use points::DIM;
