use vstd::prelude::*;

use crate::arena::{first_of, Arena};
use crate::list::{LinkedList, ListPtr};
use crate::node::iter::RawIter;
use crate::node::ptr::NodePtr;
use crate::node::{Link, Node};
use crate::util::UnsafePinned;

verus! {

broadcast use {crate::util::reveal_pinned_view, crate::list::group_list_reveal};

/// Raw intrusive linked list: a list that hands out node pointers.
///
/// Once pinned it lives in the arena as its start cell, the same as a
/// [`LinkedList`].
pub struct RawList {
    pub(crate) start: UnsafePinned<Option<NodePtr>>,
}

impl RawList {
    /// The first node of the list.
    pub closed spec fn view(&self) -> Option<NodePtr> {
        self.start.inner
    }

    pub fn new() -> (r: Self)
        ensures
            r@ is None,
    {
        RawList { start: UnsafePinned::new(None) }
    }

    fn start(&self) -> (r: Option<NodePtr>)
        ensures
            r == self@,
    {
        *self.start.get()
    }

    pub fn is_empty(&self) -> (r: bool)
        ensures
            r == (self@ is None),
    {
        self.start().is_none()
    }

    /// The start cell that the list is pinned as.
    pub(crate) fn into_list(self) -> (r: LinkedList)
        ensures
            r@ == self@,
    {
        LinkedList { start: self.start }
    }

    /// Puts node `node` at the start of list `list`, after taking it out of
    /// the list that held it, if any.
    pub fn push_front<T>(arena: &mut Arena<T>, list: ListPtr, node: NodePtr)
        requires
            old(arena).wf(),
            old(arena).valid_list(list),
            old(arena).valid_node(node),
        ensures
            final(arena).wf(),
            final(arena).lists() == old(arena).without(node).update(
                list.index as int,
                seq![node] + old(arena).without(node)[list.index as int],
            ),
            final(arena).values() == old(arena).values(),
            final(arena).linked(node),
    {
        Node::link(arena, node, list);
    }

    /// Moves every node of list `list` to a new list, runs `f` on that new
    /// list, then empties the new list and unpins it.
    ///
    /// The new list keeps its place, empty, only when `f` pinned other
    /// lists after it, since unpinning it would move those.
    pub fn take<T, R, F: FnOnce(&mut Arena<T>, ListPtr) -> R>(arena: &mut Arena<T>, list: ListPtr, f: F) -> (r: R)
        requires
            old(arena).wf(),
            old(arena).valid_list(list),
            forall|a: &mut Arena<T>, l: ListPtr| (*a).wf() && (*a).valid_list(l) ==> #[trigger] f.requires((a, l)),
            forall|a: &mut Arena<T>, l: ListPtr, r: R|
                #[trigger] f.ensures((a, l), r) ==> {
                    &&& (*final(a)).wf()
                    &&& (*final(a)).list_count() >= (*a).list_count()
                    &&& (*final(a)).keeps_values(*a)
                },
        ensures
            final(arena).wf(),
            final(arena).list_count() >= old(arena).list_count(),
            final(arena).keeps_values(*old(arena)),
            exists|a: &mut Arena<T>|
                {
                    &&& (*a).wf()
                    &&& (*a).lists() == old(arena).lists().update(list.index as int, Seq::empty()).push(
                        old(arena).lists()[list.index as int],
                    )
                    &&& (*a).values() == old(arena).values()
                    &&& #[trigger] f.ensures((a, ListPtr { index: old(arena).list_count() as usize }), r)
                    &&& final(arena).lists() == if (*final(a)).list_count() == old(arena).list_count() + 1 {
                        (*final(a)).lists().drop_last()
                    } else {
                        (*final(a)).lists().update(old(arena).list_count() as int, Seq::empty())
                    }
                    &&& final(arena).values() == (*final(a)).values()
                    &&& forall|i: int|
                        0 <= i < (*final(a)).lists()[old(arena).list_count() as int].len()
                            ==> !final(arena).linked(#[trigger] (*final(a)).lists()[old(arena).list_count() as int][i])
                },
    {
        let tmp = LinkedList::move_into_new(arena, list);
        let ghost mid = *arena;
        proof {
            mid.lemma_view();
            assert(tmp == ListPtr { index: old(arena).list_count() as usize });
        }
        let r = f(arena, tmp);
        let ghost after = *arena;
        Self::clear(arena, tmp);
        if tmp.index + 1 == arena.lists_len() {
            arena.unpin_last_list();
        }
        proof {
            assert(exists|a: &mut Arena<T>| *a == mid && *final(a) == after && #[trigger] f.ensures((a, tmp), r));
        }
        r
    }

    /// A raw iterator over the nodes of list `list`, from its start on.
    pub fn iter<T>(arena: &Arena<T>, list: ListPtr) -> (r: RawIter)
        requires
            arena.wf(),
            arena.valid_list(list),
        ensures
            r@ == first_of(arena.lists()[list.index as int]),
    {
        RawIter::new(*arena.list(list).start.get())
    }

    /// Empties list `list` by unlinking its nodes one by one, from its start
    /// on: every node it held is then in no list.
    pub fn clear<T>(arena: &mut Arena<T>, list: ListPtr)
        requires
            old(arena).wf(),
            old(arena).valid_list(list),
        ensures
            final(arena).wf(),
            final(arena).lists() == old(arena).lists().update(list.index as int, Seq::empty()),
            final(arena).values() == old(arena).values(),
            forall|i: int|
                0 <= i < old(arena).lists()[list.index as int].len() ==> !final(arena).linked(
                    #[trigger] old(arena).lists()[list.index as int][i],
                ),
    {
        let ghost l = list.index as int;
        let ghost s = old(arena).lists()[l];
        let ghost mut k: int = 0;
        let mut iter = Self::iter(arena, list);
        proof {
            assert(s.subrange(0, s.len() as int) =~= s);
            assert(old(arena).lists().update(l, s) =~= old(arena).lists());
        }
        loop
            invariant
                arena.wf(),
                0 <= l < arena.list_count(),
                0 <= l < old(arena).list_count(),
                old(arena).wf(),
                s == old(arena).lists()[l],
                0 <= k <= s.len(),
                arena.lists() == old(arena).lists().update(l, s.subrange(k, s.len() as int)),
                arena.values() == old(arena).values(),
                iter@ == if k < s.len() {
                    Some(s[k])
                } else {
                    None
                },
                forall|j: int| 0 <= j < k ==> !arena.linked(#[trigger] s[j]),
            ensures
                k == s.len(),
                arena.wf(),
                arena.lists() == old(arena).lists().update(l, s.subrange(k, s.len() as int)),
                arena.values() == old(arena).values(),
                forall|j: int| 0 <= j < k ==> !arena.linked(#[trigger] s[j]),
            decreases s.len() - k,
        {
            let ghost a0 = *arena;
            proof {
                if k < s.len() {
                    assert(a0.lists()[l][0] == s[k]);
                    old(arena).lemma_links(l, k);
                    a0.lemma_place(s[k]);
                    a0.lemma_links(l, 0);
                    if k + 1 < s.len() {
                        assert(a0.lists()[l][1] == s[k + 1]);
                    }
                }
            }
            let ptr = match iter.next(arena) {
                Some(p) => p,
                None => break,
            };
            Link::unlink(arena, ptr);
            proof {
                a0.lemma_without(ptr);
                assert(a0.place(ptr) == Some((l, 0int)));
                assert(s.subrange(k, s.len() as int).remove(0) =~= s.subrange(k + 1, s.len() as int));
                assert forall|j: int| 0 <= j < k + 1 implies !arena.linked(#[trigger] s[j]) by {
                    if j < k {
                        old(arena).lemma_links(l, j);
                        a0.lemma_place(s[j]);
                        arena.lemma_place(s[j]);
                        if let Some((l2, i2)) = arena.place(s[j]) {
                            assert(arena.lists()[l2][i2] == s[j]);
                            assert(a0.without(ptr)[l2].contains(s[j]));
                        }
                    }
                }
                k = k + 1;
            }
        }
        proof {
            assert(s.subrange(k, s.len() as int) =~= Seq::<NodePtr>::empty());
        }
    }
}

impl Default for RawList {
    fn default() -> (r: Self)
        ensures
            r@ is None,
    {
        Self::new()
    }
}

} // verus!
