//! An ordered key-value index backed by a packed memory array that is
//! addressed through a static, cache-oblivious search tree, together with
//! a simpler legacy map over a fixed-capacity circular buffer that shows
//! the same `get`/`insert` shape with weaker guarantees.

pub mod keys;
pub(crate) mod cell;
pub mod math;
pub mod density;
pub mod btree_map;
pub(crate) mod tree;
pub mod static_search_tree;

pub use keys::Key;
pub use btree_map::CacheObliviousBTreeMap;
pub use static_search_tree::StaticSearchTree;
