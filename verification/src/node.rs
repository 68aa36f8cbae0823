pub mod iter;
pub mod list;
pub mod ptr;

use vstd::prelude::*;

use crate::arena::{detached_link, Arena};
use crate::list::ListPtr;
use crate::util::UnsafePinned;
use ptr::NodePtr;

verus! {

broadcast use crate::util::reveal_pinned_view;

/// The cell that points at a linked node: the start of a list, or the
/// `next` field of the node before it.
#[derive(Debug, Clone, Copy, PartialEq, Eq, Structural)]
pub enum Parent {
    List(ListPtr),
    Node(NodePtr),
}

/// The links of a node: the node after it, and the cell that points at it.
#[derive(Debug, Clone, Copy)]
pub struct Link {
    pub(crate) next: Option<NodePtr>,
    pub(crate) parent: Option<Parent>,
}

impl Link {
    /// The node after this one in its list.
    pub closed spec fn next(&self) -> Option<NodePtr> {
        self.next
    }

    /// The cell that points at this node, if it is in a list.
    pub closed spec fn parent(&self) -> Option<Parent> {
        self.parent
    }

    pub closed spec fn spec_linked(&self) -> bool {
        self.parent is Some
    }

    /// Whether the node is in a list.
    #[verifier::when_used_as_spec(spec_linked)]
    pub fn linked(&self) -> (r: bool)
        ensures
            r == self.parent() is Some,
    {
        self.parent.is_some()
    }

    /// Takes node `node` out of the list that holds it, if any: the node
    /// after it takes its place, and the order of the rest is kept.
    pub fn unlink<T>(arena: &mut Arena<T>, node: NodePtr)
        requires
            old(arena).wf(),
            old(arena).valid_node(node),
        ensures
            final(arena).wf(),
            final(arena).lists() == old(arena).without(node),
            final(arena).values() == old(arena).values(),
            !final(arena).linked(node),
            final(arena).link_of(node).next() is None,
            final(arena).link_of(node).parent() is None,
    {
        let ghost a0 = *arena;
        proof {
            a0.lemma_view();
            assert(a0.place_ok(node.index as int));
        }
        if let Some(parent) = arena.nodes[node.index].link.inner.parent {
            arena.nodes[node.index].link.inner.parent = None;
            let ghost (l, i) = a0.places@[node.index as int].unwrap();
            proof {
                assert(a0.entry_ok(l, i));
            }
            let next = arena.nodes[node.index].link.inner.next.take();
            if let Some(nx) = next {
                proof {
                    assert(a0.entry_ok(l, i + 1));
                }
                arena.nodes[nx.index].link.inner.parent = Some(parent);
            }
            match parent {
                Parent::List(lp) => {
                    arena.lists[lp.index].start.inner = next;
                },
                Parent::Node(p) => {
                    proof {
                        assert(a0.entry_ok(l, i - 1));
                    }
                    arena.nodes[p.index].link.inner.next = next;
                },
            }
            proof {
                arena.chains@ = a0.chains@.update(l, a0.chains@[l].remove(i));
                arena.places@ = Seq::new(
                    a0.places@.len(),
                    |m: int|
                        if m == node.index {
                            None
                        } else {
                            match a0.places@[m] {
                                Some((l2, j)) => if l2 == l && j > i {
                                    Some((l2, j - 1))
                                } else {
                                    Some((l2, j))
                                },
                                None => None,
                            }
                        },
                );
                Arena::lemma_unlink_inv(a0, *arena, node, l, i);
            }
        } else {
            proof {
                if let Some((l, i)) = a0.places@[node.index as int] {
                    assert(a0.entry_ok(l, i));
                }
            }
        }
        proof {
            arena.lemma_view();
        }
    }

    /// Detaches every node of the chain that starts at `start`, the first
    /// node of list `l` whose start cell is already empty.
    pub(crate) fn unlink_all<T>(arena: &mut Arena<T>, start: NodePtr, Ghost(l): Ghost<int>)
        requires
            old(arena).inv_but_start(l),
            old(arena).chains@[l].len() > 0,
            old(arena).chains@[l][0] == start,
        ensures
            final(arena).inv(),
            final(arena).chains@ == old(arena).chains@.update(l, Seq::empty()),
            final(arena).places@ == old(arena).places_without_list(l),
            final(arena).values() == old(arena).values(),
    {
        let ghost a0 = *arena;
        let ghost s = a0.chains@[l];
        let ghost mut k: int = 0;
        let mut cur = start;
        proof {
            assert(a0.entry_ok(l, 0));
            assert forall|m: int| 0 <= m < a0.nodes@.len() implies !Arena::<T>::in_list_before(
                a0.places@[m],
                l,
                k,
            ) by {
                assert(a0.place_ok(m));
            }
        }
        loop
            invariant_except_break
                0 <= k < s.len(),
                cur == s[k],
                forall|m: int| 0 <= m < a0.nodes@.len() ==> #[trigger] arena.link_at(m) == if Arena::<T>::in_list_before(
                    a0.places@[m],
                    l,
                    k,
                ) {
                    detached_link()
                } else {
                    a0.link_at(m)
                },
            invariant
                a0.inv_but_start(l),
                s == a0.chains@[l],
                s.len() > 0,
                arena.nodes@.len() == a0.nodes@.len(),
                arena.lists@ == a0.lists@,
                arena.chains@ == a0.chains@,
                arena.places@ == a0.places@,
                forall|m: int| 0 <= m < a0.nodes@.len() ==> #[trigger] arena.nodes@[m].value == a0.nodes@[m].value,
            ensures
                forall|m: int| 0 <= m < a0.nodes@.len() ==> #[trigger] arena.link_at(m) == if Arena::<T>::in_list(
                    a0.places@[m],
                    l,
                ) {
                    detached_link()
                } else {
                    a0.link_at(m)
                },
            decreases s.len() - k,
        {
            let ghost before = *arena;
            proof {
                assert(a0.entry_ok(l, k));
                assert(arena.link_at(cur.index as int) == a0.link_at(cur.index as int));
            }
            let parent = arena.nodes[cur.index].link.inner.parent;
            arena.nodes[cur.index].link.inner.parent = None;
            if parent.is_none() {
                break;
            }
            let next = arena.nodes[cur.index].link.inner.next;
            arena.nodes[cur.index].link.inner.next = None;
            match next {
                None => {
                    proof {
                        assert forall|m: int| 0 <= m < a0.nodes@.len() implies #[trigger] arena.link_at(m)
                            == if Arena::<T>::in_list(a0.places@[m], l) {
                            detached_link()
                        } else {
                            a0.link_at(m)
                        } by {
                            assert(a0.place_ok(m));
                            assert(before.link_at(m) == before.nodes@[m].link.inner);
                        }
                    }
                    break;
                },
                Some(p) => {
                    proof {
                        assert(a0.entry_ok(l, k + 1));
                        assert forall|m: int| 0 <= m < a0.nodes@.len() implies #[trigger] arena.link_at(m)
                            == if Arena::<T>::in_list_before(a0.places@[m], l, k + 1) {
                            detached_link()
                        } else {
                            a0.link_at(m)
                        } by {
                            assert(a0.place_ok(m));
                            assert(before.link_at(m) == before.nodes@[m].link.inner);
                        }
                        k = k + 1;
                    }
                    cur = p;
                },
            }
        }
        let ghost done = *arena;
        proof {
            arena.chains@ = a0.chains@.update(l, Seq::empty());
            arena.places@ = a0.places_without_list(l);
            assert forall|m: int| 0 <= m < a0.nodes@.len() implies #[trigger] arena.link_at(m)
                == if Arena::<T>::in_list(a0.places@[m], l) {
                detached_link()
            } else {
                a0.link_at(m)
            } by {
                assert(done.link_at(m) == done.nodes@[m].link.inner);
            }
            Arena::lemma_clear_inv(a0, *arena, l);
        }
    }
}

/// A node of an intrusive list: a value and its links.
pub struct Node<T> {
    pub(crate) link: UnsafePinned<Link>,
    pub(crate) value: UnsafePinned<T>,
}

impl<T> Node<T> {
    /// The links of this node.
    pub closed spec fn link_view(&self) -> Link {
        self.link.inner
    }

    pub closed spec fn spec_value(&self) -> &T {
        &self.value.inner
    }

    pub closed spec fn spec_linked(&self) -> bool {
        self.link.inner.parent is Some
    }

    /// The node is in no list and has no node after it.
    pub open spec fn is_detached(&self) -> bool {
        &&& self.link_view().parent() is None
        &&& self.link_view().next() is None
    }

    /// A node that is in no list.
    pub fn new(value: T) -> (r: Self)
        ensures
            *r.value() == value,
            r.is_detached(),
    {
        Self::new_unchecked(value)
    }

    /// A node that is in no list.
    pub fn new_unchecked(value: T) -> (r: Self)
        ensures
            *r.value() == value,
            r.is_detached(),
    {
        Node {
            link: UnsafePinned::new(Link { next: None, parent: None }),
            value: UnsafePinned::new(value),
        }
    }

    #[verifier::when_used_as_spec(spec_value)]
    pub fn value(&self) -> (r: &T)
        ensures
            r == self.spec_value(),
    {
        self.value.get()
    }

    pub fn value_pinned(&self) -> (r: &T)
        ensures
            r == self.value(),
    {
        self.value.get_pinned()
    }

    /// Whether the node is in a list.
    #[verifier::when_used_as_spec(spec_linked)]
    pub fn linked(&self) -> (r: bool)
        ensures
            r == self.link_view().parent() is Some,
    {
        self.link.get().linked()
    }

    /// Takes node `node` out of the list that holds it, if any.
    pub fn unlink(arena: &mut Arena<T>, node: NodePtr)
        requires
            old(arena).wf(),
            old(arena).valid_node(node),
        ensures
            final(arena).wf(),
            final(arena).lists() == old(arena).without(node),
            final(arena).values() == old(arena).values(),
            !final(arena).linked(node),
            final(arena).link_of(node).next() is None,
            final(arena).link_of(node).parent() is None,
    {
        Link::unlink(arena, node);
    }

    /// Takes node `node` out of its list, if any, and puts it at the start
    /// of list `list`.
    pub(crate) fn link(arena: &mut Arena<T>, node: NodePtr, list: ListPtr)
        requires
            old(arena).wf(),
            old(arena).valid_node(node),
            old(arena).valid_list(list),
        ensures
            final(arena).wf(),
            final(arena).lists() == old(arena).without(node).update(
                list.index as int,
                seq![node] + old(arena).without(node)[list.index as int],
            ),
            final(arena).values() == old(arena).values(),
            final(arena).linked(node),
    {
        proof {
            old(arena).lemma_place(node);
        }
        Link::unlink(arena, node);
        let ghost a0 = *arena;
        proof {
            a0.lemma_view();
        }
        let start = arena.lists[list.index].start.inner;
        arena.nodes[node.index].link.inner.next = start;
        arena.nodes[node.index].link.inner.parent = Some(Parent::List(list));
        arena.lists[list.index].start.inner = Some(node);
        if let Some(old) = start {
            proof {
                assert(a0.start_ok(list.index as int));
                assert(a0.entry_ok(list.index as int, 0));
            }
            arena.nodes[old.index].link.inner.parent = Some(Parent::Node(node));
        }
        proof {
            let l = list.index as int;
            assert(a0.start_ok(l));
            arena.chains@ = a0.chains@.update(l, seq![node] + a0.chains@[l]);
            arena.places@ = Seq::new(
                a0.places@.len(),
                |m: int|
                    if m == node.index {
                        Some((l, 0int))
                    } else {
                        match a0.places@[m] {
                            Some((l2, j)) => if l2 == l {
                                Some((l2, j + 1))
                            } else {
                                Some((l2, j))
                            },
                            None => None,
                        }
                    },
            );
            Arena::lemma_push_front_inv(a0, *arena, node, l);
            arena.lemma_view();
        }
    }
}

pub(crate) broadcast proof fn reveal_link_next(l: Link)
    ensures
        #[trigger] l.next() == l.next,
{
}

pub(crate) broadcast proof fn reveal_link_parent(l: Link)
    ensures
        #[trigger] l.parent() == l.parent,
{
}

pub(crate) broadcast proof fn reveal_node_link<T>(n: Node<T>)
    ensures
        #[trigger] n.link_view() == n.link.inner,
{
}

pub(crate) broadcast proof fn reveal_node_value<T>(n: Node<T>)
    ensures
        #[trigger] n.spec_value() == n.value.inner,
{
}

pub(crate) broadcast proof fn reveal_node_linked<T>(n: Node<T>)
    ensures
        #[trigger] n.spec_linked() == (n.link.inner.parent is Some),
{
}

pub(crate) broadcast group group_node_reveal {
    reveal_link_next,
    reveal_link_parent,
    reveal_node_link,
    reveal_node_value,
    reveal_node_linked,
}

} // verus!
