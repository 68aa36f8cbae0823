# intrusive_list

An intrusive doubly linked list, verified with Verus.

Nodes and lists are pinned in an `Arena`: once there, they never move, and
they refer to each other by index (`NodePtr`, `ListPtr`). Each node keeps the
node after it and the cell that points at it (the start of its list, or the
`next` field of the node before it), so a node leaves its list in constant
time, without knowing which list that is.

Layout:

- `src/arena.rs`: the arena, its invariant (`wf`), its view (`lists`,
  `values`, `place`) and the laws that hold of it.
- `src/node.rs`, `src/node/`: nodes, their links, linking and unlinking,
  node pointers, the raw list and its raw iterator.
- `src/list.rs`, `src/list/`: the linked list and its iterator.
- `src/iter.rs`: an iterator over the nodes a raw iterator reaches.
- `src/hkt.rs`, `src/__private.rs`: type-level names for types that take a
  lifetime.
- `src/util.rs`: the cell that pinned fields are kept in.
- `app/lib.rs`: `Debug` adapters and the `ForLt!` macro, which cannot stand
  in the verified library.
