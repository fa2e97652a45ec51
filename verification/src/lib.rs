//! Generic containers with machine-checked contracts: a growable array, a
//! double-ended queue, a doubly linked list, an open-addressing hash map, a
//! B-tree ordered map, and sets built on the two maps.

pub mod order;
pub mod sequences;
pub mod maps;
pub mod sets;
