//! Set containers: the maps with the values left out.

pub mod btree_set;
pub mod hash_set;

pub use btree_set::{CroBTreeSet, CroBTreeSetIntoIter, CroBTreeSetIter};
pub use hash_set::{CroHashSet, CroHashSetDrain, CroHashSetIntoIter, CroHashSetIter};
