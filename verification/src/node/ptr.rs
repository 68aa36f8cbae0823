use vstd::prelude::*;

use crate::arena::Arena;
use crate::node::{Link, Node};

verus! {

broadcast use {crate::util::reveal_pinned_view, crate::node::group_node_reveal};

/// The place of a node in an [`Arena`]: the node is found again by its index.
#[derive(Debug, Clone, Copy, PartialEq, Eq, Structural)]
pub struct NodePtr {
    pub index: usize,
}

impl NodePtr {
    pub fn new(index: usize) -> (r: Self)
        ensures
            r.index == index,
    {
        NodePtr { index }
    }

    /// The node this pointer designates, borrowed for as long as the arena.
    pub fn get_extended_ref<'a, T>(self, arena: &'a Arena<T>) -> (r: &'a Node<T>)
        requires
            arena.wf(),
            arena.valid_node(self),
        ensures
            *r.value() == arena.values()[self.index as int],
            r.linked() == arena.linked(self),
            r.link_view() == arena.link_of(self),
    {
        arena.node(self)
    }

    /// The node this pointer designates.
    pub fn as_ref<'a, T>(&self, arena: &'a Arena<T>) -> (r: &'a Node<T>)
        requires
            arena.wf(),
            arena.valid_node(*self),
        ensures
            *r.value() == arena.values()[self.index as int],
            r.linked() == arena.linked(*self),
            r.link_view() == arena.link_of(*self),
    {
        arena.node(*self)
    }

    /// The link of the node this pointer designates.
    pub fn link<'a, T>(&self, arena: &'a Arena<T>) -> (r: &'a Link)
        requires
            arena.wf(),
            arena.valid_node(*self),
        ensures
            *r == arena.link_of(*self),
    {
        arena.node(*self).link.get()
    }

    /// The link of the node this pointer designates, borrowed for as long
    /// as the arena.
    pub fn link_extended<'a, T>(self, arena: &'a Arena<T>) -> (r: &'a Link)
        requires
            arena.wf(),
            arena.valid_node(self),
        ensures
            *r == arena.link_of(self),
    {
        arena.node(self).link.get()
    }
}

} // verus!
