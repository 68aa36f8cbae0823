use vstd::prelude::*;

use crate::arena::Arena;
use crate::node::iter::RawIter;
use crate::node::ptr::NodePtr;
use crate::node::Node;

verus! {

/// Follows the `next` links from a node on, handing out the nodes of an
/// arena.
pub struct Iter<'a, T> {
    inner: RawIter,
    arena: &'a Arena<T>,
}

impl<'a, T> Iter<'a, T> {
    /// The node that comes next.
    pub closed spec fn view(&self) -> Option<NodePtr> {
        self.inner@
    }

    /// The arena whose nodes are handed out.
    pub closed spec fn arena(&self) -> &'a Arena<T> {
        self.arena
    }

    /// An iterator that hands out the nodes that `raw` reaches, from `arena`.
    pub fn from(raw: RawIter, arena: &'a Arena<T>) -> (r: Self)
        ensures
            r@ == raw@,
            r.arena() == arena,
    {
        Iter { inner: raw, arena }
    }

    /// The next node, if any.
    pub fn next(&mut self) -> (r: Option<&'a Node<T>>)
        requires
            old(self).arena().wf(),
            old(self)@ matches Some(v) ==> old(self).arena().valid_node(v),
        ensures
            final(self).arena() == old(self).arena(),
            final(self)@ matches Some(v) ==> final(self).arena().valid_node(v),
            old(self)@ is None ==> r is None && final(self)@ is None,
            old(self)@ matches Some(v) ==> {
                &&& r matches Some(node)
                &&& *node.value() == old(self).arena().values()[v.index as int]
                &&& node.link_view() == old(self).arena().link_of(v)
                &&& final(self)@ == old(self).arena().link_of(v).next()
            },
    {
        match self.inner.next(self.arena) {
            Some(v) => Some(v.get_extended_ref(self.arena)),
            None => None,
        }
    }
}

} // verus!
