use intrusive_list::hkt::{ForLt, Hkt, Wrapper};
use intrusive_list::util::UnsafePinned;
use intrusive_list::{Arena, LinkedList, ListPtr, Node, NodePtr, RawList};

fn values(arena: &Arena<i32>, list: ListPtr) -> Vec<i32> {
    LinkedList::iter(arena, list, |mut iter| {
        let mut out = Vec::new();
        while let Some(node) = iter.next() {
            out.push(*node.value());
        }
        out
    })
}

fn setup(vals: &[i32]) -> (Arena<i32>, ListPtr, Vec<NodePtr>) {
    let mut arena = Arena::new();
    let list = arena.pin_list(LinkedList::new());
    let mut nodes = Vec::new();
    for v in vals {
        nodes.push(arena.pin_node(Node::new(*v)));
    }
    for n in nodes.iter().rev() {
        LinkedList::push_front(&mut arena, list, *n);
    }
    (arena, list, nodes)
}

#[test]
fn new_node_is_unlinked() {
    let node = Node::new(7);
    assert_eq!(*node.value(), 7);
    assert_eq!(*node.value_pinned(), 7);
    assert!(!node.linked());
    let node = Node::new_unchecked(8);
    assert_eq!(*node.value(), 8);
    assert!(!node.linked());
}

#[test]
fn new_list_is_empty() {
    assert!(LinkedList::new().is_empty());
    assert!(LinkedList::default().is_empty());
    assert!(RawList::new().is_empty());
    assert!(RawList::default().is_empty());
    let mut arena: Arena<i32> = Arena::new();
    let list = arena.pin_list(LinkedList::new());
    assert!(arena.list(list).is_empty());
    assert_eq!(values(&arena, list), Vec::<i32>::new());
}

#[test]
fn push_front_puts_node_first() {
    let mut arena = Arena::new();
    let list = arena.pin_list(LinkedList::new());
    let a = arena.pin_node(Node::new(1));
    let b = arena.pin_node(Node::new(2));
    let c = arena.pin_node(Node::new(3));
    LinkedList::push_front(&mut arena, list, a);
    assert_eq!(values(&arena, list), vec![1]);
    LinkedList::push_front(&mut arena, list, b);
    LinkedList::push_front(&mut arena, list, c);
    assert_eq!(values(&arena, list), vec![3, 2, 1]);
    assert!(!arena.list(list).is_empty());
    assert!(arena.node(a).linked());
    assert!(a.link(&arena).linked());
}

#[test]
fn push_front_moves_node_between_lists() {
    let (mut arena, list, nodes) = setup(&[1, 2, 3]);
    let other = arena.pin_list(LinkedList::new());
    LinkedList::push_front(&mut arena, other, nodes[1]);
    assert_eq!(values(&arena, list), vec![1, 3]);
    assert_eq!(values(&arena, other), vec![2]);
}

#[test]
fn push_front_of_a_member_moves_it_first() {
    let (mut arena, list, nodes) = setup(&[1, 2, 3]);
    LinkedList::push_front(&mut arena, list, nodes[2]);
    assert_eq!(values(&arena, list), vec![3, 1, 2]);
}

#[test]
fn push_front_twice_changes_nothing() {
    let (mut arena, list, nodes) = setup(&[1, 2, 3]);
    LinkedList::push_front(&mut arena, list, nodes[0]);
    assert_eq!(values(&arena, list), vec![1, 2, 3]);
}

#[test]
fn unlink_first_middle_last() {
    let (mut arena, list, nodes) = setup(&[1, 2, 3, 4]);
    Node::unlink(&mut arena, nodes[1]);
    assert_eq!(values(&arena, list), vec![1, 3, 4]);
    assert!(!arena.node(nodes[1]).linked());
    Node::unlink(&mut arena, nodes[0]);
    assert_eq!(values(&arena, list), vec![3, 4]);
    Node::unlink(&mut arena, nodes[3]);
    assert_eq!(values(&arena, list), vec![3]);
    Node::unlink(&mut arena, nodes[2]);
    assert_eq!(values(&arena, list), Vec::<i32>::new());
    assert!(arena.list(list).is_empty());
}

#[test]
fn unlink_of_unlinked_node_does_nothing() {
    let (mut arena, list, _) = setup(&[1, 2]);
    let lone = arena.pin_node(Node::new(9));
    intrusive_list::Link::unlink(&mut arena, lone);
    assert!(!arena.node(lone).linked());
    assert_eq!(values(&arena, list), vec![1, 2]);
}

#[test]
fn unlink_undoes_push_front() {
    let (mut arena, list, _) = setup(&[1, 2]);
    let n = arena.pin_node(Node::new(5));
    LinkedList::push_front(&mut arena, list, n);
    assert_eq!(values(&arena, list), vec![5, 1, 2]);
    Node::unlink(&mut arena, n);
    assert_eq!(values(&arena, list), vec![1, 2]);
}

#[test]
fn clear_unlinks_every_node() {
    let (mut arena, list, nodes) = setup(&[1, 2, 3]);
    LinkedList::clear(&mut arena, list);
    assert!(arena.list(list).is_empty());
    for n in &nodes {
        assert!(!arena.node(*n).linked());
    }
    LinkedList::clear(&mut arena, list);
    assert!(arena.list(list).is_empty());
}

#[test]
fn clear_leaves_other_lists() {
    let (mut arena, list, nodes) = setup(&[1, 2]);
    let other = arena.pin_list(LinkedList::new());
    let x = arena.pin_node(Node::new(7));
    LinkedList::push_front(&mut arena, other, x);
    LinkedList::clear(&mut arena, list);
    assert_eq!(values(&arena, other), vec![7]);
    assert!(!arena.node(nodes[0]).linked());
}

#[test]
fn take_hands_the_nodes_to_f_and_unlinks_them_after() {
    let (mut arena, list, nodes) = setup(&[1, 2, 3]);
    let seen = LinkedList::take(&mut arena, list, |arena: &mut Arena<i32>, tmp: ListPtr| {
        assert!(arena.list(list).is_empty());
        values(arena, tmp)
    });
    assert_eq!(seen, vec![1, 2, 3]);
    assert!(arena.list(list).is_empty());
    for n in &nodes {
        assert!(!arena.node(*n).linked());
    }
}

#[test]
fn take_lets_f_put_nodes_back() {
    let (mut arena, list, nodes) = setup(&[1, 2, 3]);
    LinkedList::take(&mut arena, list, |arena: &mut Arena<i32>, _tmp: ListPtr| {
        LinkedList::push_front(arena, list, nodes[1]);
    });
    assert_eq!(values(&arena, list), vec![2]);
    assert!(!arena.node(nodes[0]).linked());
    assert!(!arena.node(nodes[2]).linked());
}

#[test]
fn take_of_empty_list() {
    let mut arena: Arena<i32> = Arena::new();
    let list = arena.pin_list(LinkedList::new());
    let n = LinkedList::take(&mut arena, list, |arena: &mut Arena<i32>, tmp: ListPtr| values(arena, tmp).len());
    assert_eq!(n, 0);
}

#[test]
fn raw_list_push_iter_clear() {
    let mut arena = Arena::new();
    let list = arena.pin_raw_list(RawList::new());
    let a = arena.pin_node(Node::new(10));
    let b = arena.pin_node(Node::new(20));
    RawList::push_front(&mut arena, list, a);
    RawList::push_front(&mut arena, list, b);
    let mut it = RawList::iter(&arena, list);
    assert_eq!(it.next(&arena), Some(b));
    assert_eq!(it.next(&arena), Some(a));
    assert_eq!(it.next(&arena), None);
    assert_eq!(it.next(&arena), None);
    RawList::clear(&mut arena, list);
    assert!(arena.list(list).is_empty());
    assert!(!arena.node(a).linked());
    assert!(!arena.node(b).linked());
}

#[test]
fn raw_list_take() {
    let mut arena = Arena::new();
    let list = arena.pin_raw_list(RawList::new());
    let a = arena.pin_node(Node::new(10));
    let b = arena.pin_node(Node::new(20));
    RawList::push_front(&mut arena, list, a);
    RawList::push_front(&mut arena, list, b);
    let seen = RawList::take(&mut arena, list, |arena: &mut Arena<i32>, tmp: ListPtr| {
        let mut it = RawList::iter(arena, tmp);
        let mut out = Vec::new();
        while let Some(p) = it.next(arena) {
            out.push(*arena.node(p).value());
        }
        out
    });
    assert_eq!(seen, vec![20, 10]);
    assert!(arena.list(list).is_empty());
    assert!(!arena.node(a).linked());
}

#[test]
fn node_iter_over_raw_iter() {
    let mut arena = Arena::new();
    let list = arena.pin_raw_list(RawList::new());
    let a = arena.pin_node(Node::new(1));
    let b = arena.pin_node(Node::new(2));
    RawList::push_front(&mut arena, list, a);
    RawList::push_front(&mut arena, list, b);
    let mut it = intrusive_list::iter::Iter::from(RawList::iter(&arena, list), &arena);
    assert_eq!(it.next().map(|n| *n.value()), Some(2));
    assert_eq!(it.next().map(|n| *n.value()), Some(1));
    assert!(it.next().is_none());
}

#[test]
fn node_ptr_accessors() {
    let (arena, _, nodes) = setup(&[4, 5]);
    assert_eq!(NodePtr::new(1), nodes[1]);
    assert_eq!(*nodes[0].as_ref(&arena).value(), 4);
    assert_eq!(*nodes[1].get_extended_ref(&arena).value(), 5);
    assert!(nodes[0].link(&arena).linked());
    assert!(nodes[1].link_extended(&arena).linked());
}

#[test]
fn unsafe_pinned_gives_back_its_value() {
    let p = UnsafePinned::new(3u8);
    assert_eq!(*p.get(), 3);
    assert_eq!(*p.get_pinned(), 3);
}

struct Borrowed;

impl<'a> Hkt<'a> for Borrowed {
    type T = &'a str;
}

#[test]
fn wrapper_names_a_lifetime_generic_type() {
    let _w: Wrapper<Borrowed> = Wrapper::new();
    let _d: Wrapper<Borrowed> = Wrapper::default();
    let s: <Wrapper<Borrowed> as ForLt>::Of<'_> = "x";
    assert_eq!(s, "x");
}

#[test]
fn take_unpins_its_temporary_list() {
    let (mut arena, list, _) = setup(&[1, 2]);
    let before = arena.lists_len();
    LinkedList::take(&mut arena, list, |arena: &mut Arena<i32>, tmp: ListPtr| {
        assert_eq!(arena.lists_len(), before + 1);
        assert_eq!(values(arena, tmp), vec![1, 2]);
    });
    assert_eq!(arena.lists_len(), before);
    RawList::take(&mut arena, list, |_arena: &mut Arena<i32>, _tmp: ListPtr| {});
    assert_eq!(arena.lists_len(), before);
}

#[test]
fn take_keeps_its_temporary_list_when_f_pins_another() {
    let (mut arena, list, nodes) = setup(&[1, 2]);
    let before = arena.lists_len();
    let pinned = LinkedList::take(&mut arena, list, |arena: &mut Arena<i32>, _tmp: ListPtr| {
        let p = arena.pin_list(LinkedList::new());
        LinkedList::push_front(arena, p, nodes[0]);
        p
    });
    assert_eq!(arena.lists_len(), before + 2);
    assert_eq!(values(&arena, pinned), vec![1]);
    assert!(arena.list(ListPtr { index: before }).is_empty());
    assert!(!arena.node(nodes[1]).linked());
}

#[test]
fn values_never_change() {
    let (mut arena, list, nodes) = setup(&[1, 2, 3]);
    let other = arena.pin_list(LinkedList::new());
    LinkedList::push_front(&mut arena, other, nodes[2]);
    Node::unlink(&mut arena, nodes[0]);
    LinkedList::take(&mut arena, list, |_a: &mut Arena<i32>, _t: ListPtr| {});
    LinkedList::clear(&mut arena, other);
    assert_eq!(*arena.node(nodes[0]).value(), 1);
    assert_eq!(*arena.node(nodes[1]).value(), 2);
    assert_eq!(*arena.node(nodes[2]).value(), 3);
}

#[test]
fn unlinked_node_has_no_next() {
    let (mut arena, _, nodes) = setup(&[1, 2]);
    Node::unlink(&mut arena, nodes[0]);
    assert!(!nodes[0].link(&arena).linked());
}
