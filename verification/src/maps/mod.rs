//! Map containers.

pub mod assoc;
pub mod btree_map;
pub mod hash_key;
pub mod hash_map;
pub mod model;

pub use btree_map::CroBTree;
pub use hash_key::{HashKey, HashStrategy, KeyHash, SeededHash};
pub use hash_map::CroMap;
