use vstd::prelude::*;

verus! {

/// One cell of a [`Stack`]: a value and the cell below it.
pub struct StackNode<T> {
    pub value: T,
    pub next: Option<Box<StackNode<T>>>,
}

impl<T> StackNode<T> {
    /// The values held from this cell downwards, this cell's value first.
    pub open spec fn values(self) -> Seq<T>
        decreases self,
    {
        match self.next {
            None => seq![self.value],
            Some(below) => seq![self.value] + below.values(),
        }
    }

    /// A fresh cell holding `value` with nothing below it.
    pub fn new(value: T) -> (node: Box<Self>)
        ensures
            node.value == value,
            node.next is None,
    {
        Box::new(StackNode { value, next: None })
    }
}

/// The values held by an optional chain of cells, top first.
pub open spec fn chain_values<T>(chain: Option<Box<StackNode<T>>>) -> Seq<T> {
    match chain {
        None => Seq::empty(),
        Some(node) => node.values(),
    }
}

/// A last-in first-out stack of owned cells.
pub struct Stack<T> {
    top: Option<Box<StackNode<T>>>,
}

impl<T> View for Stack<T> {
    type V = Seq<T>;

    /// The values on the stack, from the top down.
    closed spec fn view(&self) -> Seq<T> {
        chain_values(self.top)
    }
}

impl<T> Stack<T> {
    /// An empty stack.
    pub fn new() -> (stack: Self)
        ensures
            stack@ == Seq::<T>::empty(),
    {
        Stack { top: None }
    }

    /// Puts `value` on top of the stack.
    pub fn push(&mut self, value: T)
        ensures
            final(self)@ == seq![value] + old(self)@,
    {
        let mut new_node = StackNode::new(value);
        match self.top.take() {
            Some(old_top) => {
                new_node.next = Some(old_top);
            },
            None => {},
        }
        self.top = Some(new_node);
    }

    /// The values in the order in which the stack prints them: from the
    /// top down. The caller writes them out.
    pub fn print(&self) -> (lines: Vec<&T>)
        ensures
            lines@.map_values(|r: &T| *r) == self@,
    {
        let mut lines: Vec<&T> = Vec::new();
        let mut node = &self.top;
        loop
            invariant
                lines@.map_values(|r: &T| *r) + chain_values(*node) == self@,
            decreases chain_values(*node).len(),
        {
            match node {
                Some(current) => {
                    let ghost before = lines@.map_values(|r: &T| *r);
                    lines.push(&current.value);
                    assert(lines@.map_values(|r: &T| *r) =~= before.push(current.value));
                    assert(current.values() =~= seq![current.value] + chain_values(current.next));
                    node = &current.next;
                },
                None => {
                    return lines;
                },
            }
        }
    }
}

/// Builds the stack of the demo: 1, 2 and 3 pushed in that order.
pub fn test_stack() -> (stack: Stack<i32>)
    ensures
        stack@ == seq![3i32, 2i32, 1i32],
{
    let mut stack = Stack::new();
    stack.push(1);
    stack.push(2);
    stack.push(3);
    stack
}

} // verus!
