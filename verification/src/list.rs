use vstd::prelude::*;

verus! {

/// One cell of a [`List`]: a value and the cell after it.
pub struct ListNode<T> {
    pub value: T,
    pub next: Option<Box<ListNode<T>>>,
}

/// The values held by an optional chain of list cells, front first.
pub open spec fn list_values<T>(chain: Option<Box<ListNode<T>>>) -> Seq<T>
    decreases chain,
{
    match chain {
        None => Seq::empty(),
        Some(node) => seq![node.value] + list_values(node.next),
    }
}

impl<T> ListNode<T> {
    /// The values held from this cell onwards, this cell's value first.
    pub open spec fn values(self) -> Seq<T> {
        seq![self.value] + list_values(self.next)
    }

    /// A fresh cell holding `value` with nothing after it.
    pub fn new(value: T) -> (node: Box<Self>)
        ensures
            node.value == value,
            node.next is None,
    {
        Box::new(ListNode { value, next: None })
    }

    /// Unlinks the cell `index` places after this one, if there is one.
    fn unlink_at(&mut self, index: usize)
        requires
            index >= 1,
        ensures
            final(self).values() == (if index < old(self).values().len() {
                old(self).values().remove(index as int)
            } else {
                old(self).values()
            }),
        decreases old(self).values().len(),
    {
        let ghost rest = list_values(self.next);
        match self.next.take() {
            None => {},
            Some(mut after) => {
                assert(rest =~= after.values());
                if index == 1 {
                    self.next = after.next;
                    assert(list_values(self.next) =~= rest.drop_first());
                } else {
                    after.unlink_at(index - 1);
                    self.next = Some(after);
                }
            },
        }
    }
}

/// Appends the chain of `tail` after the last cell of `chain`.
fn append_chain<T>(chain: &mut Option<Box<ListNode<T>>>, tail: Box<ListNode<T>>)
    ensures
        list_values(*final(chain)) == list_values(*old(chain)) + tail.values(),
    decreases list_values(*old(chain)).len(),
{
    match chain.take() {
        None => {
            *chain = Some(tail);
        },
        Some(mut node) => {
            append_chain(&mut node.next, tail);
            *chain = Some(node);
        },
    }
}

/// A singly linked list whose cells are owned one by the next.
pub struct List<T> {
    head: Option<Box<ListNode<T>>>,
}

impl<T> View for List<T> {
    type V = Seq<T>;

    /// The values in the list, front first.
    closed spec fn view(&self) -> Seq<T> {
        list_values(self.head)
    }
}

impl<T> List<T> {
    /// An empty list.
    pub fn new() -> (list: Self)
        ensures
            list@ == Seq::<T>::empty(),
    {
        List { head: None }
    }

    /// Adds `value` at the back of the list.
    pub fn insert(&mut self, value: T)
        ensures
            final(self)@ == old(self)@.push(value),
    {
        let node = ListNode::new(value);
        append_chain(&mut self.head, node);
    }

    /// Removes the front value, if the list has one.
    pub fn delete_zero(&mut self)
        ensures
            final(self)@ == (if old(self)@.len() > 0 {
                old(self)@.drop_first()
            } else {
                old(self)@
            }),
    {
        match self.head.take() {
            Some(node) => {
                self.head = node.next;
            },
            None => {},
        }
    }

    /// Removes the value at position `index` when it is past the front and
    /// within the list; leaves the list unchanged otherwise.
    pub fn delete_non_zero(&mut self, index: usize)
        ensures
            final(self)@ == (if 0 < index < old(self)@.len() {
                old(self)@.remove(index as int)
            } else {
                old(self)@
            }),
    {
        match self.head.take() {
            None => {},
            Some(mut first) => {
                if index > 0 {
                    first.unlink_at(index);
                }
                self.head = Some(first);
            },
        }
    }

    /// Removes the value at position `index`, counted from 0 at the front;
    /// an index past the end leaves the list unchanged.
    pub fn delete(&mut self, index: usize)
        ensures
            final(self)@ == (if index < old(self)@.len() {
                old(self)@.remove(index as int)
            } else {
                old(self)@
            }),
    {
        if index == 0 {
            self.delete_zero();
        } else {
            self.delete_non_zero(index);
        }
    }

    /// The values in the order in which the list prints them: front to
    /// back. The caller writes them out.
    pub fn print(&self) -> (lines: Vec<&T>)
        ensures
            lines@.map_values(|r: &T| *r) == self@,
    {
        let mut lines: Vec<&T> = Vec::new();
        let mut node = &self.head;
        loop
            invariant
                lines@.map_values(|r: &T| *r) + list_values(*node) == self@,
            decreases list_values(*node).len(),
        {
            match node {
                Some(current) => {
                    let ghost before = lines@.map_values(|r: &T| *r);
                    lines.push(&current.value);
                    assert(lines@.map_values(|r: &T| *r) =~= before.push(current.value));
                    node = &current.next;
                },
                None => {
                    return lines;
                },
            }
        }
    }
}

/// Deleting the last position right after an insert gives back the list as
/// it was before the insert.
pub proof fn lemma_delete_last_undoes_insert<T>(before: Seq<T>, value: T)
    ensures
        before.push(value).len() == before.len() + 1,
        before.push(value).remove(before.len() as int) == before,
{
    assert(before.push(value).remove(before.len() as int) =~= before);
}

/// Deleting the front and deleting position 0 do the same.
pub proof fn lemma_delete_front_is_delete_zero<T>(values: Seq<T>)
    requires
        values.len() > 0,
    ensures
        values.remove(0) == values.drop_first(),
{
    assert(values.remove(0) =~= values.drop_first());
}

} // verus!
