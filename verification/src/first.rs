//! A stack of `i32` values: a singly linked chain in which every node is owned
//! by the node before it, and the first node by the list. Pushing and popping
//! move that ownership; nothing is ever shared.
//!
//! The contracts speak of the list as the sequence of its elements, top
//! first; `crate::lifo` proves from them that pops return the pushed elements
//! last in, first out.

use vstd::prelude::*;

verus! {

/// A stack of `i32` values. Its view is the sequence of its elements, the
/// most recently pushed one first.
pub struct List {
    head: Link,
}

enum Link {
    Empty,
    More(Box<Node>),
}

/// One cell of the chain: an element and the chain that follows it.
pub struct Node {
    elem: i32,
    next: Link,
}

impl Link {
    /// The elements of the chain that starts at this link, in chain order.
    spec fn elems(self) -> Seq<i32>
        decreases self,
    {
        match self {
            Link::Empty => Seq::empty(),
            Link::More(node) => seq![node.elem] + node.next.elems(),
        }
    }
}

impl View for List {
    type V = Seq<i32>;

    closed spec fn view(&self) -> Seq<i32> {
        self.head.elems()
    }
}

impl List {
    /// An empty stack.
    pub fn new() -> (list: Self)
        ensures
            list@ == Seq::<i32>::empty(),
    {
        List { head: Link::Empty }
    }

    /// Puts `elem` on top: the new node takes over the chain that the list
    /// held, and becomes the head.
    pub fn push(&mut self, elem: i32)
        ensures
            final(self)@ == seq![elem] + old(self)@,
    {
        let mut next = Link::Empty;
        core::mem::swap(&mut self.head, &mut next);
        self.head = Link::More(Box::new(Node { elem: elem, next: next }));
    }

    /// Takes the top element off, or returns `None` and leaves the stack as
    /// it is when there is none. The chain behind the old head node becomes
    /// the list's chain.
    pub fn pop(&mut self) -> (popped: Option<i32>)
        ensures
            match popped {
                None => old(self)@.len() == 0 && final(self)@ == old(self)@,
                Some(elem) => old(self)@.len() > 0 && elem == old(self)@[0] && final(self)@ == old(self)@.skip(1),
            },
    {
        let mut head = Link::Empty;
        core::mem::swap(&mut self.head, &mut head);
        match head {
            Link::Empty => None,
            Link::More(node) => {
                assert(node.next.elems() =~= old(self)@.skip(1));
                self.head = node.next;
                Some(node.elem)
            },
        }
    }

    /// Releases every node and leaves the stack empty. Each turn of the loop
    /// cuts the head node off the chain and releases that one node, so the
    /// call stack stays as shallow for a long list as for a short one.
    pub fn clear(&mut self)
        ensures
            final(self)@ == Seq::<i32>::empty(),
        opens_invariants none
        no_unwind
    {
        let mut cur_link = Link::Empty;
        core::mem::swap(&mut self.head, &mut cur_link);
        loop
            decreases cur_link,
        {
            match cur_link {
                Link::Empty => {
                    break ;
                },
                Link::More(mut boxed_node) => {
                    cur_link = Link::Empty;
                    core::mem::swap(&mut boxed_node.next, &mut cur_link);
                },
            }
        }
    }
}

/// A list that goes out of scope is cleared first, so that its chain is
/// released by the loop of `clear` and not node inside node.
impl Drop for List {
    fn drop(&mut self)
        ensures
            final(self)@ == Seq::<i32>::empty(),
        opens_invariants none
        no_unwind
    {
        self.clear();
    }
}

} // verus!
