//! Sequence containers.

pub mod linked_list;
pub mod vec;
pub mod vec_deque;

pub use linked_list::{CroLList, IntoIter, Node};
pub use vec::{CroVec, CroVecIter, CroVecIterMut};
pub use vec_deque::CroQue;
