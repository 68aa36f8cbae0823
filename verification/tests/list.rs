use intrusive_list::{Arena, LinkedList, ListPtr, Node};

#[test]
fn test() {
    let mut arena = Arena::new();
    let list = arena.pin_list(LinkedList::new());
    let list2 = arena.pin_list(LinkedList::new());

    let node1 = arena.pin_node(Node::new(1234));
    let node2 = arena.pin_node(Node::new(5678));
    LinkedList::push_front(&mut arena, list, node2);
    LinkedList::push_front(&mut arena, list, node1);

    LinkedList::push_front(&mut arena, list2, node1);
    Node::unlink(&mut arena, node1);
    LinkedList::push_front(&mut arena, list, node1);

    LinkedList::take(&mut arena, list, |arena: &mut Arena<i32>, list: ListPtr| {
        LinkedList::iter(arena, list, |mut iter| {
            assert_eq!(iter.next().map(|node| node.value()), Some(&1234));
            let _a = node1;
            let _b = node2;
            assert_eq!(iter.next().map(|node| node.value()), Some(&5678));
            assert_eq!(iter.next().map(|node| node.value()), None);
        });
    });
}
