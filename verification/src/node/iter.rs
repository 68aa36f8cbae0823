use vstd::prelude::*;

use crate::arena::Arena;
use crate::node::ptr::NodePtr;

verus! {

broadcast use {crate::util::reveal_pinned_view, crate::node::group_node_reveal};

/// Follows the `next` links from a node on, handing out node pointers.
///
/// The iterator only remembers the next node, so the node it last handed
/// out may leave its list before the walk goes on.
#[derive(Debug)]
pub struct RawIter {
    next: Option<NodePtr>,
}

impl RawIter {
    /// The node that comes next.
    pub closed spec fn view(&self) -> Option<NodePtr> {
        self.next
    }

    /// An iterator whose next node is `start`.
    pub(crate) fn new(start: Option<NodePtr>) -> (r: Self)
        ensures
            r@ == start,
    {
        RawIter { next: start }
    }

    /// Hands out the next node and moves on to the node after it.
    pub fn next<T>(&mut self, arena: &Arena<T>) -> (r: Option<NodePtr>)
        requires
            arena.wf(),
            old(self)@ matches Some(v) ==> arena.valid_node(v),
        ensures
            r == old(self)@,
            final(self)@ == match r {
                Some(v) => arena.link_of(v).next(),
                None => None,
            },
            final(self)@ matches Some(v) ==> arena.valid_node(v),
    {
        match self.next {
            None => None,
            Some(v) => {
                proof {
                    arena.lemma_view();
                    assert(arena.place_ok(v.index as int));
                    if let Some((l, i)) = arena.places@[v.index as int] {
                        assert(arena.entry_ok(l, i));
                        if i + 1 < arena.chains@[l].len() {
                            assert(arena.entry_ok(l, i + 1));
                        }
                    }
                }
                self.next = v.link(arena).next;
                Some(v)
            },
        }
    }
}

} // verus!
