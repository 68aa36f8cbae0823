use vstd::prelude::*;

use crate::arena::Arena;
use crate::list::ListPtr;
use crate::node::ptr::NodePtr;
use crate::node::Node;

verus! {

broadcast use {crate::util::reveal_pinned_view, crate::node::group_node_reveal, crate::list::group_list_reveal};

/// Walks the nodes of a list, from its start on.
pub struct Iter<'a, T> {
    arena: &'a Arena<T>,
    next: Option<NodePtr>,
}

impl<'a, T> Iter<'a, T> {
    /// The arena whose nodes are walked.
    pub closed spec fn arena(&self) -> &'a Arena<T> {
        self.arena
    }

    /// The nodes still to come, in order.
    pub closed spec fn rest(&self) -> Seq<NodePtr> {
        match self.next {
            Some(n) => match self.arena.place(n) {
                Some((l, i)) => self.arena.lists()[l].subrange(i, self.arena.lists()[l].len() as int),
                None => Seq::empty(),
            },
            None => Seq::empty(),
        }
    }

    /// The arena is consistent and the next node, if any, is in a list.
    pub closed spec fn wf(&self) -> bool {
        &&& self.arena.wf()
        &&& match self.next {
            Some(n) => self.arena.valid_node(n) && self.arena.linked(n),
            None => true,
        }
    }

    /// An iterator over the nodes of list `list`.
    pub(crate) fn new(arena: &'a Arena<T>, list: ListPtr) -> (r: Self)
        requires
            arena.wf(),
            arena.valid_list(list),
        ensures
            r.wf(),
            r.arena() == arena,
            r.rest() == arena.lists()[list.index as int],
    {
        let next = *arena.list(list).start.get();
        proof {
            arena.lemma_view();
            let l = list.index as int;
            assert(arena.start_ok(l));
            if arena.chains@[l].len() > 0 {
                assert(arena.entry_ok(l, 0));
                assert(arena.chains@[l].subrange(0, arena.chains@[l].len() as int) =~= arena.chains@[l]);
            } else {
                assert(arena.chains@[l] =~= Seq::empty());
            }
        }
        Iter { arena, next }
    }

    /// The next node, if any.
    pub fn next(&mut self) -> (r: Option<&'a Node<T>>)
        requires
            old(self).wf(),
        ensures
            final(self).wf(),
            final(self).arena() == old(self).arena(),
            old(self).rest().len() == 0 ==> r is None && final(self).rest() == old(self).rest(),
            old(self).rest().len() > 0 ==> {
                &&& r matches Some(node)
                &&& *node.value() == old(self).arena().values()[old(self).rest()[0].index as int]
                &&& node.link_view() == old(self).arena().link_of(old(self).rest()[0])
                &&& final(self).rest() == old(self).rest().drop_first()
            },
    {
        let arena = self.arena;
        proof {
            arena.lemma_view();
        }
        match self.next {
            None => None,
            Some(v) => {
                let ghost (l, i) = arena.places@[v.index as int].unwrap();
                proof {
                    assert(arena.place_ok(v.index as int));
                    assert(arena.entry_ok(l, i));
                }
                let node = arena.node(v);
                self.next = node.link.get().next;
                proof {
                    let s = arena.chains@[l];
                    if i + 1 < s.len() {
                        assert(arena.entry_ok(l, i + 1));
                    }
                    assert(s.subrange(i + 1, s.len() as int) =~= s.subrange(i, s.len() as int).drop_first());
                }
                Some(node)
            },
        }
    }
}

} // verus!
