//! Small pointer types: a box of one's own and a cons list.
use vstd::prelude::*;


verus! {

/// A box of one's own: it holds its value in place and hands out
/// references to it.
pub struct MyBox<T>(T);

impl<T> View for MyBox<T> {
    type V = T;

    /// The value the box holds.
    closed spec fn view(&self) -> T {
        self.0
    }
}

impl<T> MyBox<T> {
    /// A box holding `x`.
    pub fn new(x: T) -> (b: Self)
        ensures
            b@ == x,
    {
        MyBox(x)
    }
}

impl<T> std::ops::Deref for MyBox<T> {
    type Target = T;

    /// A reference to the value the box holds.
    fn deref(&self) -> (r: &T)
        ensures
            *r == self@,
    {
        &self.0
    }
}

impl<T> std::ops::DerefMut for MyBox<T> {
    /// A mutable reference to the value the box holds: what is written
    /// through it is what the box then holds.
    fn deref_mut(&mut self) -> (r: &mut T)
        ensures
            *r == old(self)@,
            final(self)@ == *final(r),
    {
        &mut self.0
    }
}

/// A cons list of `i32` values.
#[derive(Debug)]
pub enum List {
    Node(i32, Box<List>),
    Nil,
}

/// The values of a cons list, front first.
pub open spec fn cons_values(list: List) -> Seq<i32>
    decreases list,
{
    match list {
        List::Node(value, rest) => seq![value] + cons_values(*rest),
        List::Nil => Seq::empty(),
    }
}

impl View for List {
    type V = Seq<i32>;

    /// The values of the list, front first.
    open spec fn view(&self) -> Seq<i32> {
        cons_values(*self)
    }
}

/// Builds the cons list of the demo: 1, 2, 3.
pub fn test_list() -> (list: List)
    ensures
        list@ == seq![1i32, 2i32, 3i32],
{
    let list = List::Node(1, Box::new(List::Node(2, Box::new(List::Node(3, Box::new(List::Nil))))));
    assert(list@ =~= seq![1i32, 2i32, 3i32]) by {
        reveal_with_fuel(cons_values, 4);
    }
    list
}

} // verus!
