use vstd::prelude::*;

use crate::list::{LinkedList, ListPtr};
use crate::node::ptr::NodePtr;
use crate::node::list::RawList;
use crate::node::{Link, Node, Parent};

verus! {

broadcast use {
    crate::util::reveal_pinned_view,
    crate::node::group_node_reveal,
    crate::list::group_list_reveal,
};

/// The place where nodes and lists are pinned.
///
/// A node or a list never moves once it is in the arena, so other nodes can
/// refer to it by its index: a [`NodePtr`] or a [`ListPtr`].
pub struct Arena<T> {
    pub(crate) nodes: Vec<Node<T>>,
    pub(crate) lists: Vec<LinkedList>,
    /// The nodes of every list, from its start on.
    pub(crate) chains: Ghost<Seq<Seq<NodePtr>>>,
    /// For every node, the list it is in and its position there.
    pub(crate) places: Ghost<Seq<Option<(int, int)>>>,
}

/// The first node of a chain.
pub open spec fn first_of(s: Seq<NodePtr>) -> Option<NodePtr> {
    if s.len() == 0 {
        None
    } else {
        Some(s[0])
    }
}

/// The links of a node that is in no list.
pub(crate) open spec fn detached_link() -> Link {
    Link { next: None, parent: None }
}

impl<T> Arena<T> {
    pub(crate) open spec fn link_at(&self, n: int) -> Link {
        self.nodes@[n].link.inner
    }

    pub(crate) open spec fn start_at(&self, l: int) -> Option<NodePtr> {
        self.lists@[l].start.inner
    }

    /// The node after position `i` of list `l`, in the chains `c`.
    pub(crate) open spec fn succ_in(c: Seq<Seq<NodePtr>>, l: int, i: int) -> Option<NodePtr> {
        if i + 1 < c[l].len() {
            Some(c[l][i + 1])
        } else {
            None
        }
    }

    /// The cell that points at position `i` of list `l`, in the chains `c`.
    pub(crate) open spec fn pred_in(c: Seq<Seq<NodePtr>>, l: int, i: int) -> Option<Parent> {
        if i == 0 {
            Some(Parent::List(ListPtr { index: l as usize }))
        } else {
            Some(Parent::Node(c[l][i - 1]))
        }
    }

    /// Position `i` of list `l` holds a node that knows its place and is
    /// linked to its neighbours.
    pub(crate) open spec fn entry_ok(&self, l: int, i: int) -> bool {
        let p = self.chains@[l][i];
        &&& p.index < self.nodes@.len()
        &&& self.places@[p.index as int] == Some((l, i))
        &&& self.link_at(p.index as int) == Link {
            next: Self::succ_in(self.chains@, l, i),
            parent: Self::pred_in(self.chains@, l, i),
        }
    }

    /// Node `n` is where its place says, or detached when it has none.
    pub(crate) open spec fn place_ok(&self, n: int) -> bool {
        match self.places@[n] {
            Some((l, i)) => {
                &&& 0 <= l < self.chains@.len()
                &&& 0 <= i < self.chains@[l].len()
                &&& self.chains@[l][i].index == n
            },
            None => self.link_at(n) == detached_link(),
        }
    }

    pub(crate) open spec fn start_ok(&self, l: int) -> bool {
        self.start_at(l) == first_of(self.chains@[l])
    }

    pub(crate) open spec fn inv(&self) -> bool {
        &&& self.chains@.len() == self.lists@.len()
        &&& self.places@.len() == self.nodes@.len()
        &&& forall|l: int| 0 <= l < self.lists@.len() ==> #[trigger] self.start_ok(l)
        &&& forall|l: int, i: int|
            0 <= l < self.chains@.len() && 0 <= i < self.chains@[l].len() ==> #[trigger] self.entry_ok(l, i)
        &&& forall|n: int| 0 <= n < self.nodes@.len() ==> #[trigger] self.place_ok(n)
    }

    /// The arena is consistent: every node is in at most one list, and the
    /// links of the nodes spell out the lists.
    pub closed spec fn wf(&self) -> bool {
        self.inv()
    }

    /// The nodes of every list, from its start on.
    pub closed spec fn lists(&self) -> Seq<Seq<NodePtr>> {
        Seq::new(self.lists@.len(), |l: int| self.chains@[l])
    }

    /// The value of every node.
    pub closed spec fn values(&self) -> Seq<T> {
        Seq::new(self.nodes@.len(), |n: int| self.nodes@[n].value.inner)
    }

    /// The list that holds node `n` and its position there.
    pub closed spec fn place(&self, n: NodePtr) -> Option<(int, int)> {
        self.places@[n.index as int]
    }

    /// The links of node `n`.
    pub closed spec fn link_of(&self, n: NodePtr) -> Link {
        self.link_at(n.index as int)
    }

    /// Whether node `n` is in a list.
    pub open spec fn linked(&self, n: NodePtr) -> bool {
        self.place(n) is Some
    }

    pub open spec fn node_count(&self) -> nat {
        self.values().len()
    }

    pub open spec fn list_count(&self) -> nat {
        self.lists().len()
    }

    pub open spec fn valid_node(&self, n: NodePtr) -> bool {
        n.index < self.node_count()
    }

    pub open spec fn valid_list(&self, l: ListPtr) -> bool {
        l.index < self.list_count()
    }

    /// Every node of `earlier` is still here, with the same value.
    pub open spec fn keeps_values(&self, earlier: Self) -> bool {
        &&& earlier.node_count() <= self.node_count()
        &&& forall|i: int| 0 <= i < earlier.node_count() ==> #[trigger] self.values()[i] == earlier.values()[i]
    }

    /// The lists once node `n` has left the one that holds it.
    pub open spec fn without(&self, n: NodePtr) -> Seq<Seq<NodePtr>> {
        match self.place(n) {
            Some((l, i)) => self.lists().update(l, self.lists()[l].remove(i)),
            None => self.lists(),
        }
    }

    /// Every node is in at most one list, at one position: the one its
    /// place names, and it is linked exactly when it has a place.
    pub proof fn lemma_place(&self, n: NodePtr)
        requires
            self.wf(),
            self.valid_node(n),
        ensures
            match self.place(n) {
                Some((l, i)) => {
                    &&& 0 <= l < self.list_count()
                    &&& 0 <= i < self.lists()[l].len()
                    &&& self.lists()[l][i] == n
                },
                None => forall|l: int, i: int|
                    0 <= l < self.list_count() && 0 <= i < self.lists()[l].len() ==> self.lists()[l][i] != n,
            },
            forall|l: int, i: int|
                0 <= l < self.list_count() && 0 <= i < self.lists()[l].len() && #[trigger] self.lists()[l][i] == n
                    ==> self.place(n) == Some((l, i)),
            self.linked(n) == self.link_of(n).parent() is Some,
            !self.linked(n) ==> self.link_of(n).next() is None && self.link_of(n).parent() is None,
    {
        assert(self.place_ok(n.index as int));
        assert forall|l: int, i: int|
            0 <= l < self.list_count() && 0 <= i < self.lists()[l].len() && #[trigger] self.lists()[l][i] == n
                implies self.place(n) == Some((l, i)) by {
            assert(self.entry_ok(l, i));
        }
        if let Some((l, i)) = self.place(n) {
            assert(self.entry_ok(l, i));
        }
    }

    /// The links of the nodes spell out the lists: each node of a list
    /// points at the node after it, and is pointed at by the start of the
    /// list or by the node before it.
    pub proof fn lemma_links(&self, l: int, i: int)
        requires
            self.wf(),
            0 <= l < self.list_count(),
            0 <= i < self.lists()[l].len(),
        ensures
            self.valid_node(self.lists()[l][i]),
            self.link_of(self.lists()[l][i]).next() == if i + 1 < self.lists()[l].len() {
                Some(self.lists()[l][i + 1])
            } else {
                None
            },
            self.link_of(self.lists()[l][i]).parent() == if i == 0 {
                Some(Parent::List(ListPtr { index: l as usize }))
            } else {
                Some(Parent::Node(self.lists()[l][i - 1]))
            },
    {
        assert(self.entry_ok(l, i));
    }

    /// No node is in two lists, nor twice in one list.
    pub proof fn lemma_unique(&self, l1: int, i1: int, l2: int, i2: int)
        requires
            self.wf(),
            0 <= l1 < self.list_count(),
            0 <= i1 < self.lists()[l1].len(),
            0 <= l2 < self.list_count(),
            0 <= i2 < self.lists()[l2].len(),
            self.lists()[l1][i1] == self.lists()[l2][i2],
        ensures
            l1 == l2,
            i1 == i2,
    {
        assert(self.entry_ok(l1, i1));
        assert(self.entry_ok(l2, i2));
    }

    /// Unlinking node `n` takes it out of every list and keeps every other
    /// node where it was, in the same order.
    pub proof fn lemma_without(&self, n: NodePtr)
        requires
            self.wf(),
            self.valid_node(n),
        ensures
            self.without(n).len() == self.list_count(),
            forall|l: int, m: NodePtr|
                0 <= l < self.list_count() ==> (#[trigger] self.without(n)[l].contains(m) <==> (
                self.lists()[l].contains(m) && m != n)),
            forall|l: int|
                0 <= l < self.list_count() && !self.lists()[l].contains(n) ==> #[trigger] self.without(n)[l]
                    == self.lists()[l],
            forall|l: int, i: int|
                0 <= l < self.list_count() && 0 <= i < self.lists()[l].len() && #[trigger] self.lists()[l][i] == n
                    ==> self.without(n)[l] == self.lists()[l].remove(i),
    {
        self.lemma_place(n);
        assert forall|l: int, m: NodePtr| 0 <= l < self.list_count() implies (#[trigger] self.without(
            n,
        )[l].contains(m) <==> (self.lists()[l].contains(m) && m != n)) by {
            let s = self.lists()[l];
            if let Some((l0, i0)) = self.place(n) {
                if l == l0 {
                    let w = s.remove(i0);
                    if w.contains(m) {
                        let j = choose|j: int| 0 <= j < w.len() && w[j] == m;
                        let k = if j < i0 { j } else { j + 1 };
                        assert(s[k] == m);
                        if m == n {
                            self.lemma_unique(l, k, l0, i0);
                        }
                    }
                    if s.contains(m) && m != n {
                        let k = choose|k: int| 0 <= k < s.len() && s[k] == m;
                        assert(k != i0);
                        let j = if k < i0 { k } else { k - 1 };
                        assert(w[j] == m);
                    }
                }
            }
        }
        assert forall|l: int|
            0 <= l < self.list_count() && !self.lists()[l].contains(n) implies #[trigger] self.without(n)[l]
                == self.lists()[l] by {
            if let Some((l0, i0)) = self.place(n) {
                if l == l0 {
                    assert(self.lists()[l][i0] == n);
                }
            }
        }
    }

    /// Unlinking a node that is in no list changes nothing.
    pub proof fn lemma_without_unlinked(&self, n: NodePtr)
        requires
            !self.linked(n),
        ensures
            self.without(n) == self.lists(),
    {
    }

    /// Unlinking a node undoes putting it at the start of a list, when it
    /// was in no list before.
    pub proof fn lemma_push_front_then_unlink(a0: &Self, a1: &Self, l: ListPtr, n: NodePtr)
        requires
            a0.wf(),
            a0.valid_list(l),
            a0.valid_node(n),
            !a0.linked(n),
            a1.wf(),
            a1.lists() == a0.without(n).update(l.index as int, seq![n] + a0.without(n)[l.index as int]),
            a1.values() == a0.values(),
        ensures
            a1.without(n) == a0.lists(),
    {
        let li = l.index as int;
        a1.lemma_place(n);
        assert(a1.lists()[li][0] == n);
        assert(a1.place(n) == Some((li, 0int)));
        assert(a1.lists()[li].remove(0) =~= a0.lists()[li]);
        assert(a1.without(n) =~= a0.lists());
    }

    /// Putting a node at the start of a list a second time changes nothing.
    pub proof fn lemma_push_front_twice(a1: &Self, a2: &Self, l: ListPtr, n: NodePtr)
        requires
            a1.wf(),
            a1.valid_list(l),
            a1.valid_node(n),
            a1.lists()[l.index as int].len() > 0,
            a1.lists()[l.index as int][0] == n,
            a2.lists() == a1.without(n).update(l.index as int, seq![n] + a1.without(n)[l.index as int]),
        ensures
            a2.lists() == a1.lists(),
    {
        let li = l.index as int;
        a1.lemma_place(n);
        assert(a1.place(n) == Some((li, 0int)));
        assert(seq![n] + a1.lists()[li].remove(0) =~= a1.lists()[li]);
        assert(a2.lists() =~= a1.lists());
    }

    /// A node keeps its value over any run of calls that each keep the
    /// values of the nodes already pinned, as every call of this library
    /// does.
    pub proof fn lemma_values_kept(states: Seq<Self>, n: NodePtr)
        requires
            states.len() > 0,
            states[0].valid_node(n),
            forall|i: int| 0 <= i < states.len() - 1 ==> #[trigger] states[i + 1].keeps_values(states[i]),
        ensures
            states.last().valid_node(n),
            states.last().values()[n.index as int] == states[0].values()[n.index as int],
        decreases states.len(),
    {
        if states.len() > 1 {
            let front = states.drop_last();
            assert forall|i: int| 0 <= i < front.len() - 1 implies #[trigger] front[i + 1].keeps_values(front[i]) by {
                assert(states[i + 1].keeps_values(states[i]));
            }
            Self::lemma_values_kept(front, n);
            let i = states.len() - 2;
            assert(states[i + 1].keeps_values(states[i]));
        }
    }

    /// Unpins the last list, which is empty; the other lists keep their
    /// places.
    pub(crate) fn unpin_last_list(&mut self)
        requires
            old(self).wf(),
            old(self).list_count() > 0,
            old(self).lists().last().len() == 0,
        ensures
            final(self).wf(),
            final(self).lists() == old(self).lists().drop_last(),
            final(self).values() == old(self).values(),
            forall|n: NodePtr| #[trigger] final(self).place(n) == old(self).place(n),
    {
        proof {
            self.lemma_view();
        }
        let ghost a0 = *self;
        let _ = self.lists.pop();
        proof {
            let last = a0.chains@.len() - 1;
            self.chains@ = a0.chains@.drop_last();
            assert forall|k: int| 0 <= k < self.lists@.len() implies #[trigger] self.start_ok(k) by {
                assert(a0.start_ok(k));
            }
            assert forall|k: int, i: int|
                0 <= k < self.chains@.len() && 0 <= i < self.chains@[k].len() implies #[trigger] self.entry_ok(k, i) by {
                assert(a0.entry_ok(k, i));
            }
            assert forall|n: int| 0 <= n < self.nodes@.len() implies #[trigger] self.place_ok(n) by {
                assert(a0.place_ok(n));
            }
            assert(self.values() =~= a0.values());
            assert(self.lists() =~= a0.lists().drop_last());
        }
    }

    /// An arena with no nodes and no lists.
    pub fn new() -> (r: Self)
        ensures
            r.wf(),
            r.lists() == Seq::<Seq<NodePtr>>::empty(),
            r.values() == Seq::<T>::empty(),
    {
        let r = Arena {
            nodes: Vec::new(),
            lists: Vec::new(),
            chains: Ghost(Seq::empty()),
            places: Ghost(Seq::empty()),
        };
        assert(r.values() =~= Seq::<T>::empty());
        r
    }

    /// Pins a node: it gets a fixed place, in no list.
    pub fn pin_node(&mut self, node: Node<T>) -> (r: NodePtr)
        requires
            old(self).wf(),
            node.is_detached(),
        ensures
            final(self).wf(),
            r.index == old(self).node_count(),
            final(self).values() == old(self).values().push(*node.value()),
            final(self).lists() == old(self).lists(),
            forall|n: NodePtr| old(self).valid_node(n) ==> final(self).place(n) == old(self).place(n),
            !final(self).linked(r),
    {
        let r = NodePtr::new(self.nodes.len());
        self.nodes.push(node);
        proof {
            self.places@ = self.places@.push(None);
            assert(self.values() =~= old(self).values().push(*node.value()));
            assert forall|l: int, i: int|
                0 <= l < self.chains@.len() && 0 <= i < self.chains@[l].len() implies #[trigger] self.entry_ok(l, i) by {
                assert(old(self).entry_ok(l, i));
            }
            assert forall|n: int| 0 <= n < self.nodes@.len() implies #[trigger] self.place_ok(n) by {
                if n < old(self).nodes@.len() {
                    assert(old(self).place_ok(n));
                }
            }
            assert forall|l: int| 0 <= l < self.lists@.len() implies #[trigger] self.start_ok(l) by {
                assert(old(self).start_ok(l));
            }
        }
        r
    }

    /// Pins a list: it gets a fixed place, empty.
    pub fn pin_list(&mut self, list: LinkedList) -> (r: ListPtr)
        requires
            old(self).wf(),
            list@ is None,
        ensures
            final(self).wf(),
            r.index == old(self).list_count(),
            final(self).lists() == old(self).lists().push(Seq::empty()),
            final(self).values() == old(self).values(),
            forall|n: NodePtr| old(self).valid_node(n) ==> final(self).place(n) == old(self).place(n),
    {
        let r = ListPtr { index: self.lists.len() };
        self.lists.push(list);
        proof {
            self.chains@ = self.chains@.push(Seq::empty());
            assert(self.values() =~= old(self).values());
            assert forall|l: int, i: int|
                0 <= l < self.chains@.len() && 0 <= i < self.chains@[l].len() implies #[trigger] self.entry_ok(l, i) by {
                assert(old(self).entry_ok(l, i));
            }
            assert forall|n: int| 0 <= n < self.nodes@.len() implies #[trigger] self.place_ok(n) by {
                assert(old(self).place_ok(n));
            }
            assert forall|l: int| 0 <= l < self.lists@.len() implies #[trigger] self.start_ok(l) by {
                if l < old(self).lists@.len() {
                    assert(old(self).start_ok(l));
                }
            }
        }
        r
    }

    /// Pins a raw list: it gets a fixed place, empty, held as its start
    /// cell like any list.
    pub fn pin_raw_list(&mut self, list: RawList) -> (r: ListPtr)
        requires
            old(self).wf(),
            list@ is None,
        ensures
            final(self).wf(),
            r.index == old(self).list_count(),
            final(self).lists() == old(self).lists().push(Seq::empty()),
            final(self).values() == old(self).values(),
            forall|n: NodePtr| old(self).valid_node(n) ==> final(self).place(n) == old(self).place(n),
    {
        self.pin_list(list.into_list())
    }

    /// How many nodes are pinned.
    pub fn nodes_len(&self) -> (r: usize)
        ensures
            r == self.node_count(),
    {
        proof {
            self.lemma_view();
        }
        self.nodes.len()
    }

    /// How many lists are pinned.
    pub fn lists_len(&self) -> (r: usize)
        ensures
            r == self.list_count(),
    {
        proof {
            self.lemma_view();
        }
        self.lists.len()
    }

    /// The node at `p`.
    pub fn node(&self, p: NodePtr) -> (r: &Node<T>)
        requires
            self.wf(),
            self.valid_node(p),
        ensures
            *r.value() == self.values()[p.index as int],
            r.link_view() == self.link_of(p),
            r.linked() == self.linked(p),
    {
        proof {
            assert(self.place_ok(p.index as int));
            if let Some((l, i)) = self.places@[p.index as int] {
                assert(self.entry_ok(l, i));
            }
        }
        &self.nodes[p.index]
    }

    /// The list at `l`.
    pub fn list(&self, l: ListPtr) -> (r: &LinkedList)
        requires
            self.wf(),
            self.valid_list(l),
        ensures
            r@ == first_of(self.lists()[l.index as int]),
    {
        proof {
            assert(self.start_ok(l.index as int));
        }
        &self.lists[l.index]
    }

    /// The public view of the arena, in terms of its fields.
    pub(crate) proof fn lemma_view(&self)
        ensures
            self.wf() == self.inv(),
            self.inv() ==> self.lists() == self.chains@,
            self.lists().len() == self.lists@.len(),
            self.values().len() == self.nodes@.len(),
            forall|n: int| 0 <= n < self.nodes@.len() ==> #[trigger] self.values()[n] == self.nodes@[n].value.inner,
            forall|n: NodePtr| #[trigger] self.place(n) == self.places@[n.index as int],
            forall|n: NodePtr| #[trigger] self.link_of(n) == self.link_at(n.index as int),
            self.lists@.len() <= usize::MAX,
            self.nodes@.len() <= usize::MAX,
    {
        assert(self.lists.len() == self.lists@.len());
        assert(self.nodes.len() == self.nodes@.len());
        if self.inv() {
            assert(self.lists() =~= self.chains@);
        }
    }

    /// What a node's links become when node `node`, at position `i` of list
    /// `l`, leaves that list.
    pub(crate) open spec fn link_after_unlink(&self, node: NodePtr, l: int, i: int, m: int) -> Link {
        let c = self.chains@[l];
        if m == node.index {
            detached_link()
        } else if i + 1 < c.len() && m == c[i + 1].index {
            Link { next: self.link_at(m).next, parent: Self::pred_in(self.chains@, l, i) }
        } else if i > 0 && m == c[i - 1].index {
            Link { next: Self::succ_in(self.chains@, l, i), parent: self.link_at(m).parent }
        } else {
            self.link_at(m)
        }
    }

    /// Taking a node out of its list keeps the arena consistent, when the
    /// links are set as `link_after_unlink` says and the ghost state follows.
    pub(crate) proof fn lemma_unlink_inv(a0: Self, a1: Self, node: NodePtr, l: int, i: int)
        requires
            a0.inv(),
            0 <= node.index < a0.nodes@.len(),
            a0.places@[node.index as int] == Some((l, i)),
            a1.nodes@.len() == a0.nodes@.len(),
            a1.lists@.len() == a0.lists@.len(),
            forall|m: int| 0 <= m < a0.nodes@.len() ==> #[trigger] a1.nodes@[m].value == a0.nodes@[m].value,
            forall|m: int| 0 <= m < a0.nodes@.len() ==> #[trigger] a1.link_at(m) == a0.link_after_unlink(node, l, i, m),
            forall|k: int| 0 <= k < a0.lists@.len() ==> #[trigger] a1.start_at(k) == if k == l && i == 0 {
                Self::succ_in(a0.chains@, l, i)
            } else {
                a0.start_at(k)
            },
            a1.chains@ == a0.chains@.update(l, a0.chains@[l].remove(i)),
            a1.places@ == Seq::new(
                a0.places@.len(),
                |m: int|
                    if m == node.index {
                        None
                    } else {
                        match a0.places@[m] {
                            Some((l2, j)) => if l2 == l && j > i {
                                Some((l2, j - 1))
                            } else {
                                Some((l2, j))
                            },
                            None => None,
                        }
                    },
            ),
        ensures
            a1.inv(),
            a1.lists() == a0.without(node),
            a1.values() == a0.values(),
            !a1.linked(node),
    {
        let c0 = a0.chains@;
        let c1 = a1.chains@;
        assert(a0.place_ok(node.index as int));
        assert(a0.entry_ok(l, i));
        assert forall|k: int| 0 <= k < a1.lists@.len() implies #[trigger] a1.start_ok(k) by {
            assert(a0.start_ok(k));
            if k == l && c0[l].len() > 1 {
                assert(c1[l][0] == if i == 0 { c0[l][1] } else { c0[l][0] });
            }
        }
        assert forall|k: int, j: int| 0 <= k < c1.len() && 0 <= j < c1[k].len() implies #[trigger] a1.entry_ok(k, j) by {
            if k != l {
                assert(a0.entry_ok(k, j));
                let p = c0[k][j];
                assert(p.index != node.index);
                if i + 1 < c0[l].len() {
                    assert(a0.entry_ok(l, i + 1));
                }
                if i > 0 {
                    assert(a0.entry_ok(l, i - 1));
                }
            } else if j < i {
                assert(a0.entry_ok(k, j));
                if i + 1 < c0[l].len() {
                    assert(a0.entry_ok(l, i + 1));
                }
                if j + 1 < i {
                    assert(a0.entry_ok(l, i - 1));
                }
            } else {
                assert(a0.entry_ok(k, j + 1));
                if j > i {
                    assert(a0.entry_ok(l, i + 1));
                }
                if i > 0 {
                    assert(a0.entry_ok(l, i - 1));
                }
            }
        }
        assert forall|m: int| 0 <= m < a1.nodes@.len() implies #[trigger] a1.place_ok(m) by {
            assert(a0.place_ok(m));
            if m != node.index {
                if let Some((l2, j)) = a0.places@[m] {
                    assert(a0.entry_ok(l2, j));
                } else {
                    if i + 1 < c0[l].len() {
                        assert(a0.entry_ok(l, i + 1));
                    }
                    if i > 0 {
                        assert(a0.entry_ok(l, i - 1));
                    }
                }
            }
        }
        assert(a1.values() =~= a0.values());
    }

    /// What a node's links become when the detached node `node` is put at
    /// the start of list `l`.
    pub(crate) open spec fn link_after_push_front(&self, node: NodePtr, l: int, m: int) -> Link {
        let c = self.chains@[l];
        if m == node.index {
            Link { next: first_of(c), parent: Some(Parent::List(ListPtr { index: l as usize })) }
        } else if c.len() > 0 && m == c[0].index {
            Link { next: self.link_at(m).next, parent: Some(Parent::Node(node)) }
        } else {
            self.link_at(m)
        }
    }

    /// Putting a detached node at the start of a list keeps the arena
    /// consistent, when the links are set as `link_after_push_front` says
    /// and the ghost state follows.
    pub(crate) proof fn lemma_push_front_inv(a0: Self, a1: Self, node: NodePtr, l: int)
        requires
            a0.inv(),
            0 <= node.index < a0.nodes@.len(),
            0 <= l < a0.lists@.len(),
            a0.places@[node.index as int] is None,
            a1.nodes@.len() == a0.nodes@.len(),
            a1.lists@.len() == a0.lists@.len(),
            forall|m: int| 0 <= m < a0.nodes@.len() ==> #[trigger] a1.nodes@[m].value == a0.nodes@[m].value,
            forall|m: int| 0 <= m < a0.nodes@.len() ==> #[trigger] a1.link_at(m) == a0.link_after_push_front(node, l, m),
            forall|k: int| 0 <= k < a0.lists@.len() ==> #[trigger] a1.start_at(k) == if k == l {
                Some(node)
            } else {
                a0.start_at(k)
            },
            a1.chains@ == a0.chains@.update(l, seq![node] + a0.chains@[l]),
            a1.places@ == Seq::new(
                a0.places@.len(),
                |m: int|
                    if m == node.index {
                        Some((l, 0int))
                    } else {
                        match a0.places@[m] {
                            Some((l2, j)) => if l2 == l {
                                Some((l2, j + 1))
                            } else {
                                Some((l2, j))
                            },
                            None => None,
                        }
                    },
            ),
        ensures
            a1.inv(),
            a1.lists() == a0.lists().update(l, seq![node] + a0.lists()[l]),
            a1.values() == a0.values(),
            a1.linked(node),
    {
        let c0 = a0.chains@;
        let c1 = a1.chains@;
        assert(a0.place_ok(node.index as int));
        assert(a0.start_ok(l));
        if c0[l].len() > 0 {
            assert(a0.entry_ok(l, 0));
        }
        assert forall|k: int| 0 <= k < a1.lists@.len() implies #[trigger] a1.start_ok(k) by {
            assert(a0.start_ok(k));
        }
        assert forall|k: int, j: int| 0 <= k < c1.len() && 0 <= j < c1[k].len() implies #[trigger] a1.entry_ok(k, j) by {
            if k != l {
                assert(a0.entry_ok(k, j));
            } else if j > 0 {
                assert(a0.entry_ok(k, j - 1));
            }
        }
        assert forall|m: int| 0 <= m < a1.nodes@.len() implies #[trigger] a1.place_ok(m) by {
            assert(a0.place_ok(m));
            if let Some((l2, j)) = a0.places@[m] {
                assert(a0.entry_ok(l2, j));
            }
        }
        assert(a1.values() =~= a0.values());
    }

    /// Whether place `p` is in list `l`.
    pub(crate) open spec fn in_list(p: Option<(int, int)>, l: int) -> bool {
        match p {
            Some((l2, _)) => l2 == l,
            None => false,
        }
    }

    /// Whether place `p` is in list `l`, before position `k`.
    pub(crate) open spec fn in_list_before(p: Option<(int, int)>, l: int, k: int) -> bool {
        match p {
            Some((l2, j)) => l2 == l && j < k,
            None => false,
        }
    }

    /// The places once every node of list `l` has left it.
    pub(crate) open spec fn places_without_list(&self, l: int) -> Seq<Option<(int, int)>> {
        Seq::new(self.places@.len(), |m: int| if Self::in_list(self.places@[m], l) { None } else { self.places@[m] })
    }

    /// The arena is consistent but for list `l`, whose start cell has been
    /// emptied while its nodes are still chained.
    pub(crate) open spec fn inv_but_start(&self, l: int) -> bool {
        &&& self.chains@.len() == self.lists@.len()
        &&& self.places@.len() == self.nodes@.len()
        &&& 0 <= l < self.lists@.len()
        &&& self.start_at(l) is None
        &&& forall|k: int| 0 <= k < self.lists@.len() && k != l ==> #[trigger] self.start_ok(k)
        &&& forall|k: int, i: int|
            0 <= k < self.chains@.len() && 0 <= i < self.chains@[k].len() ==> #[trigger] self.entry_ok(k, i)
        &&& forall|n: int| 0 <= n < self.nodes@.len() ==> #[trigger] self.place_ok(n)
    }

    /// Emptying the start cell of a list that has nodes leaves the rest
    /// of the arena consistent.
    pub(crate) proof fn lemma_empty_start(a0: Self, a1: Self, l: int)
        requires
            a0.inv(),
            0 <= l < a0.lists@.len(),
            a1.nodes@ == a0.nodes@,
            a1.chains@ == a0.chains@,
            a1.places@ == a0.places@,
            a1.lists@.len() == a0.lists@.len(),
            forall|k: int| 0 <= k < a0.lists@.len() && k != l ==> #[trigger] a1.start_at(k) == a0.start_at(k),
            a1.start_at(l) is None,
        ensures
            a1.inv_but_start(l),
            a1.values() == a0.values(),
    {
        assert(a1.values() =~= a0.values());
        assert forall|k: int| 0 <= k < a1.lists@.len() && k != l implies #[trigger] a1.start_ok(k) by {
            assert(a0.start_ok(k));
        }
        assert forall|k: int, i: int|
            0 <= k < a1.chains@.len() && 0 <= i < a1.chains@[k].len() implies #[trigger] a1.entry_ok(k, i) by {
            assert(a0.entry_ok(k, i));
        }
        assert forall|n: int| 0 <= n < a1.nodes@.len() implies #[trigger] a1.place_ok(n) by {
            assert(a0.place_ok(n));
        }
    }

    /// Once every node of list `l` is detached, dropping the list's chain
    /// makes the arena consistent again.
    pub(crate) proof fn lemma_clear_inv(a0: Self, a1: Self, l: int)
        requires
            a0.inv_but_start(l),
            a1.nodes@.len() == a0.nodes@.len(),
            a1.lists@ == a0.lists@,
            forall|m: int| 0 <= m < a0.nodes@.len() ==> #[trigger] a1.nodes@[m].value == a0.nodes@[m].value,
            forall|m: int| 0 <= m < a0.nodes@.len() ==> #[trigger] a1.link_at(m) == if Self::in_list(a0.places@[m], l) {
                detached_link()
            } else {
                a0.link_at(m)
            },
            a1.chains@ == a0.chains@.update(l, Seq::empty()),
            a1.places@ == a0.places_without_list(l),
        ensures
            a1.inv(),
            a1.values() == a0.values(),
    {
        assert forall|k: int| 0 <= k < a1.lists@.len() implies #[trigger] a1.start_ok(k) by {
            if k != l {
                assert(a0.start_ok(k));
            }
        }
        assert forall|k: int, i: int|
            0 <= k < a1.chains@.len() && 0 <= i < a1.chains@[k].len() implies #[trigger] a1.entry_ok(k, i) by {
            assert(a0.entry_ok(k, i));
            let p = a0.chains@[k][i];
            if k != l {
                if let Some(pred) = Self::pred_in(a0.chains@, k, i) {
                    if i > 0 {
                        assert(a0.entry_ok(k, i - 1));
                    }
                }
                if i + 1 < a0.chains@[k].len() {
                    assert(a0.entry_ok(k, i + 1));
                }
            }
        }
        assert forall|n: int| 0 <= n < a1.nodes@.len() implies #[trigger] a1.place_ok(n) by {
            assert(a0.place_ok(n));
        }
        assert(a1.values() =~= a0.values());
    }

    /// Moving the whole chain of list `from` to the empty list `to` keeps
    /// the arena consistent: only the first node's parent changes.
    pub(crate) proof fn lemma_move_inv(a0: Self, a1: Self, from: int, to: int)
        requires
            a0.inv(),
            0 <= from < a0.lists@.len(),
            0 <= to < a0.lists@.len(),
            from != to,
            a0.chains@[to].len() == 0,
            a1.nodes@.len() == a0.nodes@.len(),
            a1.lists@.len() == a0.lists@.len(),
            forall|m: int| 0 <= m < a0.nodes@.len() ==> #[trigger] a1.nodes@[m].value == a0.nodes@[m].value,
            forall|m: int| 0 <= m < a0.nodes@.len() ==> #[trigger] a1.link_at(m) == if a0.chains@[from].len() > 0
                && m == a0.chains@[from][0].index {
                Link { next: a0.link_at(m).next, parent: Some(Parent::List(ListPtr { index: to as usize })) }
            } else {
                a0.link_at(m)
            },
            forall|k: int| 0 <= k < a0.lists@.len() ==> #[trigger] a1.start_at(k) == if k == from {
                None
            } else if k == to {
                a0.start_at(from)
            } else {
                a0.start_at(k)
            },
            a1.chains@ == a0.chains@.update(from, Seq::empty()).update(to, a0.chains@[from]),
            a1.places@ == Seq::new(
                a0.places@.len(),
                |m: int|
                    match a0.places@[m] {
                        Some((l2, j)) => if l2 == from {
                            Some((to, j))
                        } else {
                            Some((l2, j))
                        },
                        None => None,
                    },
            ),
        ensures
            a1.inv(),
            a1.values() == a0.values(),
    {
        let c0 = a0.chains@;
        if c0[from].len() > 0 {
            assert(a0.entry_ok(from, 0));
        }
        assert forall|k: int| 0 <= k < a1.lists@.len() implies #[trigger] a1.start_ok(k) by {
            assert(a0.start_ok(k));
            assert(a0.start_ok(from));
        }
        assert forall|k: int, i: int|
            0 <= k < a1.chains@.len() && 0 <= i < a1.chains@[k].len() implies #[trigger] a1.entry_ok(k, i) by {
            if k == to {
                assert(a0.entry_ok(from, i));
                if i > 0 {
                    assert(a0.entry_ok(from, i - 1));
                }
            } else {
                assert(a0.entry_ok(k, i));
            }
        }
        assert forall|n: int| 0 <= n < a1.nodes@.len() implies #[trigger] a1.place_ok(n) by {
            assert(a0.place_ok(n));
            if let Some((l2, j)) = a0.places@[n] {
                assert(a0.entry_ok(l2, j));
            }
        }
        assert(a1.values() =~= a0.values());
    }
}

} // verus!
