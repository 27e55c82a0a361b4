# lib

Linked data structures built from owned nodes, with their behaviour stated
and proved in Verus:

- `src/stack.rs`: a stack of boxed cells; its view is the sequence of values
  from the top down.
- `src/list.rs`: a singly linked list; insert at the back, delete by position.
- `src/tree.rs`: a binary search tree of `i32` values (equal values go right);
  deleting a value cuts off the first node on its search path that holds it,
  with everything below. The laws of the tree (order kept, contents after
  insert and delete, what print lists) are public proof functions there.
- `src/book.rs`: a box of one's own with `Deref`/`DerefMut`, and a cons list.

`app/` runs the demos and writes out what they show, including the demos about
`Rc` counts, `RefCell`, `Weak` and threads, which stay outside the verified
library.
