//! An intrusive doubly linked list whose nodes and list heads live in an
//! [`Arena`]: a node records the cell that points at it (its parent) and
//! the node after it, so that a node leaves its list in constant time.
pub mod __private;
pub mod arena;
pub mod hkt;
pub mod iter;
pub mod list;
pub mod node;
pub mod util;

pub use arena::Arena;
pub use list::{iter::Iter, LinkedList, ListPtr};
pub use node::{iter::RawIter, list::RawList, ptr::NodePtr, Link, Node, Parent};
