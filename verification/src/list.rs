pub mod iter;

use vstd::prelude::*;

use crate::arena::Arena;
use crate::list::iter::Iter;
use crate::node::{Link, Node, Parent};
use crate::node::ptr::NodePtr;
use crate::util::UnsafePinned;

verus! {

broadcast use crate::util::reveal_pinned_view;

/// The place of a list in an [`Arena`]: the list is found again by its index.
#[derive(Debug, Clone, Copy, PartialEq, Eq, Structural)]
pub struct ListPtr {
    pub index: usize,
}

/// Self managed intrusive linked list.
///
/// A list only holds the cell that points at its first node; the nodes
/// themselves hold the rest of the chain.
pub struct LinkedList {
    pub(crate) start: UnsafePinned<Option<NodePtr>>,
}

impl LinkedList {
    /// The first node of the list.
    pub closed spec fn view(&self) -> Option<NodePtr> {
        self.start.inner
    }

    pub closed spec fn spec_is_empty(&self) -> bool {
        self.start.inner is None
    }

    pub fn new() -> (r: Self)
        ensures
            r@ is None,
    {
        LinkedList { start: UnsafePinned::new(None) }
    }

    #[verifier::when_used_as_spec(spec_is_empty)]
    pub fn is_empty(&self) -> (r: bool)
        ensures
            r == (self@ is None),
    {
        self.start.get().is_none()
    }

    /// Puts node `node` at the start of list `list`, after taking it out of
    /// the list that held it, if any.
    pub fn push_front<T>(arena: &mut Arena<T>, list: ListPtr, node: NodePtr)
        requires
            old(arena).wf(),
            old(arena).valid_list(list),
            old(arena).valid_node(node),
        ensures
            final(arena).wf(),
            final(arena).lists() == old(arena).without(node).update(
                list.index as int,
                seq![node] + old(arena).without(node)[list.index as int],
            ),
            final(arena).values() == old(arena).values(),
            final(arena).linked(node),
    {
        Node::link(arena, node, list);
    }

    /// Pins a new list and moves every node of list `list` to it, in the
    /// same order; `list` is left empty.
    pub(crate) fn move_into_new<T>(arena: &mut Arena<T>, list: ListPtr) -> (tmp: ListPtr)
        requires
            old(arena).wf(),
            old(arena).valid_list(list),
        ensures
            final(arena).wf(),
            tmp.index == old(arena).list_count(),
            final(arena).lists() == old(arena).lists().update(list.index as int, Seq::empty()).push(
                old(arena).lists()[list.index as int],
            ),
            final(arena).values() == old(arena).values(),
    {
        proof {
            old(arena).lemma_view();
        }
        let tmp = arena.pin_list(LinkedList::new());
        let ghost a0 = *arena;
        let ghost from = list.index as int;
        let ghost to = tmp.index as int;
        proof {
            a0.lemma_view();
            assert(a0.start_ok(from));
        }
        if let Some(ptr) = arena.lists[list.index].start.inner {
            arena.lists[list.index].start.inner = None;
            arena.lists[tmp.index].start.inner = Some(ptr);
            proof {
                assert(a0.entry_ok(from, 0));
            }
            arena.nodes[ptr.index].link.inner.parent = Some(Parent::List(tmp));
            proof {
                arena.chains@ = a0.chains@.update(from, Seq::empty()).update(to, a0.chains@[from]);
                arena.places@ = Seq::new(
                    a0.places@.len(),
                    |m: int|
                        match a0.places@[m] {
                            Some((l2, j)) => if l2 == from {
                                Some((to, j))
                            } else {
                                Some((l2, j))
                            },
                            None => None,
                        },
                );
                Arena::lemma_move_inv(a0, *arena, from, to);
            }
        } else {
            proof {
                assert(a0.chains@[from] =~= Seq::empty());
            }
        }
        proof {
            arena.lemma_view();
            assert(arena.lists() =~= old(arena).lists().update(from, Seq::empty()).push(old(arena).lists()[from]));
        }
        tmp
    }

    /// Moves every node of list `list` to a new list, runs `f` on that new
    /// list, then empties the new list and unpins it.
    ///
    /// The new list keeps its place, empty, only when `f` pinned other
    /// lists after it, since unpinning it would move those.
    ///
    /// `list` is left empty for `f` to fill again if it wants; the nodes
    /// still in the new list when `f` returns are then in no list.
    pub fn take<T, R, F: FnOnce(&mut Arena<T>, ListPtr) -> R>(arena: &mut Arena<T>, list: ListPtr, f: F) -> (r: R)
        requires
            old(arena).wf(),
            old(arena).valid_list(list),
            forall|a: &mut Arena<T>, l: ListPtr| (*a).wf() && (*a).valid_list(l) ==> #[trigger] f.requires((a, l)),
            forall|a: &mut Arena<T>, l: ListPtr, r: R|
                #[trigger] f.ensures((a, l), r) ==> {
                    &&& (*final(a)).wf()
                    &&& (*final(a)).list_count() >= (*a).list_count()
                    &&& (*final(a)).keeps_values(*a)
                },
        ensures
            final(arena).wf(),
            final(arena).list_count() >= old(arena).list_count(),
            final(arena).keeps_values(*old(arena)),
            exists|a: &mut Arena<T>|
                {
                    &&& (*a).wf()
                    &&& (*a).lists() == old(arena).lists().update(list.index as int, Seq::empty()).push(
                        old(arena).lists()[list.index as int],
                    )
                    &&& (*a).values() == old(arena).values()
                    &&& #[trigger] f.ensures((a, ListPtr { index: old(arena).list_count() as usize }), r)
                    &&& final(arena).lists() == if (*final(a)).list_count() == old(arena).list_count() + 1 {
                        (*final(a)).lists().drop_last()
                    } else {
                        (*final(a)).lists().update(old(arena).list_count() as int, Seq::empty())
                    }
                    &&& final(arena).values() == (*final(a)).values()
                    &&& forall|i: int|
                        0 <= i < (*final(a)).lists()[old(arena).list_count() as int].len()
                            ==> !final(arena).linked(#[trigger] (*final(a)).lists()[old(arena).list_count() as int][i])
                },
    {
        let tmp = Self::move_into_new(arena, list);
        let ghost mid = *arena;
        proof {
            mid.lemma_view();
            assert(tmp == ListPtr { index: old(arena).list_count() as usize });
        }
        let r = f(arena, tmp);
        let ghost after = *arena;
        LinkedList::clear(arena, tmp);
        if tmp.index + 1 == arena.lists_len() {
            arena.unpin_last_list();
        }
        proof {
            assert(exists|a: &mut Arena<T>| *a == mid && *final(a) == after && #[trigger] f.ensures((a, tmp), r));
        }
        r
    }

    /// Runs `f` on an iterator over the nodes of list `list`, from its start
    /// on.
    pub fn iter<'a, T, R, F: FnOnce(Iter<'a, T>) -> R>(arena: &'a Arena<T>, list: ListPtr, f: F) -> (r: R)
        requires
            arena.wf(),
            arena.valid_list(list),
            forall|it: Iter<'a, T>|
                it.wf() && it.arena() == arena && it.rest() == arena.lists()[list.index as int]
                    ==> #[trigger] f.requires((it,)),
        ensures
            exists|it: Iter<'a, T>|
                {
                    &&& it.wf()
                    &&& it.arena() == arena
                    &&& it.rest() == arena.lists()[list.index as int]
                    &&& #[trigger] f.ensures((it,), r)
                },
    {
        let it = Iter::new(arena, list);
        let r = f(it);
        proof {
            assert(f.ensures((it,), r));
        }
        r
    }

    /// Empties list `list`: every node it held is then in no list.
    pub fn clear<T>(arena: &mut Arena<T>, list: ListPtr)
        requires
            old(arena).wf(),
            old(arena).valid_list(list),
        ensures
            final(arena).wf(),
            final(arena).lists() == old(arena).lists().update(list.index as int, Seq::empty()),
            final(arena).values() == old(arena).values(),
            forall|i: int|
                0 <= i < old(arena).lists()[list.index as int].len() ==> !final(arena).linked(
                    #[trigger] old(arena).lists()[list.index as int][i],
                ),
    {
        let ghost a0 = *arena;
        let ghost l = list.index as int;
        proof {
            a0.lemma_view();
            assert(a0.start_ok(l));
        }
        if let Some(start) = arena.lists[list.index].start.inner {
            arena.lists[list.index].start.inner = None;
            proof {
                Arena::lemma_empty_start(a0, *arena, l);
            }
            Link::unlink_all(arena, start, Ghost(l));
            proof {
                arena.lemma_view();
                assert forall|i: int| 0 <= i < a0.chains@[l].len() implies !arena.linked(
                    #[trigger] a0.chains@[l][i],
                ) by {
                    assert(a0.entry_ok(l, i));
                }
            }
        } else {
            proof {
                assert(a0.chains@[l] =~= Seq::empty());
                assert(a0.chains@.update(l, Seq::empty()) =~= a0.chains@);
            }
        }
    }
}

impl Default for LinkedList {
    fn default() -> (r: Self)
        ensures
            r@ is None,
    {
        Self::new()
    }
}

pub(crate) broadcast proof fn reveal_list_view(l: LinkedList)
    ensures
        #[trigger] l@ == l.start.inner,
{
}

pub(crate) broadcast proof fn reveal_list_empty(l: LinkedList)
    ensures
        #[trigger] l.spec_is_empty() == (l.start.inner is None),
{
}

pub(crate) broadcast group group_list_reveal {
    reveal_list_view,
    reveal_list_empty,
}

} // verus!
