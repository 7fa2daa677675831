//! Single linked list, used as a stack.

use vstd::prelude::*;

verus! {

/// One cell of the list: a value and the cells pushed before it.
#[derive(Debug)]
pub struct ListNode<T> {
    next: Option<Box<ListNode<T>>>,
    val: T,
}

/// A stack kept as a singly linked list; the head is the value pushed last.
#[derive(Debug)]
pub struct SingleLinkedList<T> {
    head: Option<Box<ListNode<T>>>,
    len: usize,
}

/// The values of a chain of cells, the oldest first.
pub closed spec fn chain_values<T>(link: Option<Box<ListNode<T>>>) -> Seq<T>
    decreases link,
{
    match link {
        None => Seq::empty(),
        Some(cell) => chain_values(cell.next).push(cell.val),
    }
}

impl<T> ListNode<T> {
    /// The value held in this cell.
    pub closed spec fn value(&self) -> T {
        self.val
    }

    /// The values of the cells behind this one, the oldest first.
    pub closed spec fn behind(&self) -> Seq<T> {
        chain_values(self.next)
    }

    /// A cell with nothing behind it.
    pub fn new(val: T) -> (cell: Self)
        ensures
            cell.value() == val,
            cell.behind() == Seq::<T>::empty(),
    {
        Self { next: None, val }
    }
}

impl<T> View for SingleLinkedList<T> {
    type V = Seq<T>;

    /// The values on the stack in the order they were pushed: the last one
    /// is the top.
    closed spec fn view(&self) -> Seq<T> {
        chain_values(self.head)
    }
}

impl<T> SingleLinkedList<T> {
    /// The recorded length is the number of values held.
    pub closed spec fn wf(&self) -> bool {
        self.len == chain_values(self.head).len()
    }

    /// The empty stack.
    pub fn new() -> (list: Self)
        ensures
            list.wf(),
            list@ == Seq::<T>::empty(),
    {
        Self { head: None, len: 0 }
    }

    /// Number of values on the stack.
    pub fn len(&self) -> (n: usize)
        requires
            self.wf(),
        ensures
            n == self@.len(),
    {
        self.len
    }

    /// Puts `val` on top.
    pub fn push(&mut self, val: T)
        requires
            old(self).wf(),
            old(self)@.len() < usize::MAX,
        ensures
            final(self).wf(),
            final(self)@ == old(self)@.push(val),
    {
        let mut new_node = ListNode::new(val);
        new_node.next = self.head.take();
        self.head = Some(Box::new(new_node));
        self.len += 1;
    }

    /// Takes the top value off, if there is one.
    pub fn pop(&mut self) -> (top: Option<T>)
        requires
            old(self).wf(),
        ensures
            final(self).wf(),
            old(self)@.len() == 0 ==> top.is_none() && final(self)@ == old(self)@,
            old(self)@.len() > 0 ==> top == Some(old(self)@.last()) && final(self)@ == old(
                self,
            )@.drop_last(),
    {
        if let Some(head) = self.head.take() {
            let cell = *head;
            self.head = cell.next;
            self.len -= 1;
            assert(self@ =~= old(self)@.drop_last());
            Some(cell.val)
        } else {
            None
        }
    }
}

fn copy_chain<T: Copy>(link: &Option<Box<ListNode<T>>>) -> (copy: Option<Box<ListNode<T>>>)
    ensures
        chain_values(copy) == chain_values(*link),
    decreases link,
{
    match link {
        None => None,
        Some(cell) => {
            let next = copy_chain(&cell.next);
            Some(Box::new(ListNode { next, val: cell.val }))
        },
    }
}

impl<T: Copy> Clone for SingleLinkedList<T> {
    /// A second stack with the same values in the same order.
    fn clone(&self) -> (copy: Self)
        ensures
            copy@ == self@,
            self.wf() ==> copy.wf(),
    {
        Self { head: copy_chain(&self.head), len: self.len }
    }
}

} // verus!
