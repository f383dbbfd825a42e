//! A generic stack: a singly linked chain in which every node is owned by the
//! node before it, and the first node by the list. Besides push, pop and a
//! look at the top element it has three ways to walk the chain: by value, by
//! shared borrow and by mutable borrow.
//!
//! The contracts speak of the list as the sequence of its elements, top
//! first; `crate::lifo` proves from them that pops return the pushed elements
//! last in, first out.

use vstd::prelude::*;

verus! {

/// A stack of `T`. Its view is the sequence of its elements, the most
/// recently pushed one first.
pub struct List<T> {
    head: Link<T>,
}

type Link<T> = Option<Box<Node<T>>>;

/// One cell of the chain. Its view is its own element followed by the
/// elements of every node after it.
pub struct Node<T> {
    elem: T,
    next: Link<T>,
}

/// Walks a list by value: each step pops the head. Its view is what is still
/// to come.
pub struct IntoIter<T>(List<T>);

/// Walks a list by shared borrow. Its view is what is still to come.
pub struct Iter<'a, T> {
    next: Option<&'a Node<T>>,
}

/// Walks a list by mutable borrow. It holds the first node not yet visited,
/// and with it the whole chain behind that node.
pub struct IterMut<'a, T> {
    next: Option<&'a mut Node<T>>,
}

/// The elements of the chain that starts at `link`, in chain order.
spec fn elems<T>(link: Link<T>) -> Seq<T>
    decreases link,
{
    match link {
        None => Seq::empty(),
        Some(node) => seq![node.elem] + elems(node.next),
    }
}

impl<T> View for Node<T> {
    type V = Seq<T>;

    closed spec fn view(&self) -> Seq<T> {
        seq![self.elem] + elems(self.next)
    }
}

impl<T> View for List<T> {
    type V = Seq<T>;

    closed spec fn view(&self) -> Seq<T> {
        elems(self.head)
    }
}

impl<T> View for IntoIter<T> {
    type V = Seq<T>;

    closed spec fn view(&self) -> Seq<T> {
        self.0@
    }
}

impl<'a, T> View for Iter<'a, T> {
    type V = Seq<T>;

    closed spec fn view(&self) -> Seq<T> {
        match self.next {
            None => Seq::empty(),
            Some(node) => node@,
        }
    }
}

impl<'a, T> View for IterMut<'a, T> {
    type V = Seq<T>;

    /// The current values of the elements not yet visited.
    open spec fn view(&self) -> Seq<T> {
        match self.cursor() {
            None => Seq::empty(),
            Some(node) => node@,
        }
    }
}

impl<T> Node<T> {
    /// A node has at least its own element.
    pub broadcast proof fn lemma_view_nonempty(self)
        ensures
            #[trigger] self@.len() > 0,
    {
    }
}

impl<T> List<T> {
    /// An empty stack.
    pub fn new() -> (list: Self)
        ensures
            list@ == Seq::<T>::empty(),
    {
        List { head: None }
    }

    /// Puts `elem` on top: the new node takes over the chain that the list
    /// held, and becomes the head.
    pub fn push(&mut self, elem: T)
        ensures
            final(self)@ == seq![elem] + old(self)@,
    {
        let new_node = Box::new(Node { elem: elem, next: self.head.take() });
        self.head = Some(new_node);
    }

    /// Takes the top element off, or returns `None` and leaves the stack as
    /// it is when there is none. The chain behind the old head node becomes
    /// the list's chain.
    pub fn pop(&mut self) -> (popped: Option<T>)
        ensures
            match popped {
                None => old(self)@.len() == 0 && final(self)@ == old(self)@,
                Some(elem) => old(self)@.len() > 0 && elem == old(self)@[0] && final(self)@ == old(self)@.skip(1),
            },
    {
        match self.head.take() {
            None => None,
            Some(node) => {
                assert(elems(node.next) =~= old(self)@.skip(1));
                self.head = node.next;
                Some(node.elem)
            },
        }
    }

    /// The top element, if there is one.
    pub fn peek(&self) -> (top: Option<&T>)
        ensures
            match top {
                None => self@.len() == 0,
                Some(elem) => self@.len() > 0 && *elem == self@[0],
            },
    {
        match &self.head {
            None => None,
            Some(node) => Some(&node.elem),
        }
    }

    /// The top element, if there is one, open to change: whatever the caller
    /// leaves in it is the top element afterwards, and nothing else changes.
    pub fn peek_mut(&mut self) -> (top: Option<&mut T>)
        ensures
            match top {
                None => old(self)@.len() == 0 && final(self)@ == old(self)@,
                Some(elem) => old(self)@.len() > 0 && *elem == old(self)@[0] && final(self)@ == old(self)@.update(0, *final(elem)),
            },
    {
        match &mut self.head {
            None => None,
            Some(node) => {
                assert(forall|e: T| #![auto] seq![e] + elems(node.next) =~= old(self)@.update(0, e));
                Some(&mut node.elem)
            },
        }
    }

    /// Hands the list over to an iterator that yields its elements by value,
    /// top first.
    pub fn into_iter(self) -> (it: IntoIter<T>)
        ensures
            it@ == self@,
    {
        IntoIter(self)
    }

    /// An iterator over shared borrows of the elements, top first.
    pub fn iter<'a>(&'a self) -> (it: Iter<'a, T>)
        ensures
            it@ == self@,
    {
        Iter {
            next: match &self.head {
                None => None,
                Some(node) => Some(&**node),
            },
        }
    }

    /// An iterator over mutable borrows of the elements, top first. When the
    /// iterator and the borrows it gave out are done with, the list holds
    /// what they left.
    pub fn iter_mut<'a>(&'a mut self) -> (it: IterMut<'a, T>)
        ensures
            it@ == old(self)@,
            final(self)@ == (match it.cursor() {
                None => Seq::empty(),
                Some(node) => final(node)@,
            }),
    {
        IterMut {
            next: match &mut self.head {
                None => None,
                Some(node) => Some(&mut **node),
            },
        }
    }

    /// Releases every node and leaves the stack empty. Each turn of the loop
    /// cuts the head node off the chain and releases that one node, so the
    /// call stack stays as shallow for a long list as for a short one.
    pub fn clear(&mut self)
        ensures
            final(self)@ == Seq::<T>::empty(),
        opens_invariants none
        no_unwind
    {
        let mut cur_link: Link<T> = None;
        core::mem::swap(&mut self.head, &mut cur_link);
        loop
            decreases cur_link,
        {
            match cur_link {
                None => {
                    break ;
                },
                Some(mut boxed_node) => {
                    cur_link = None;
                    core::mem::swap(&mut boxed_node.next, &mut cur_link);
                },
            }
        }
    }
}

/// A list that goes out of scope is cleared first, so that its chain is
/// released by the loop of `clear` and not node inside node.
impl<T> Drop for List<T> {
    fn drop(&mut self)
        ensures
            final(self)@ == Seq::<T>::empty(),
        opens_invariants none
        no_unwind
    {
        self.clear();
    }
}

impl<T> IntoIter<T> {
    /// The next element by value: the list's top element, popped.
    pub fn next(&mut self) -> (item: Option<T>)
        ensures
            match item {
                None => old(self)@.len() == 0 && final(self)@ == old(self)@,
                Some(elem) => old(self)@.len() > 0 && elem == old(self)@[0] && final(self)@ == old(self)@.skip(1),
            },
    {
        self.0.pop()
    }
}

impl<'a, T> Iter<'a, T> {
    /// The next element by shared borrow.
    pub fn next(&mut self) -> (item: Option<&'a T>)
        ensures
            match item {
                None => old(self)@.len() == 0 && final(self)@ == old(self)@,
                Some(elem) => old(self)@.len() > 0 && *elem == old(self)@[0] && final(self)@ == old(self)@.skip(1),
            },
    {
        match self.next {
            None => None,
            Some(node) => {
                assert(elems(node.next) =~= old(self)@.skip(1));
                self.next = match &node.next {
                    None => None,
                    Some(following) => Some(&**following),
                };
                Some(&node.elem)
            },
        }
    }
}

impl<'a, T> IterMut<'a, T> {
    /// The first node not yet visited, if any is left.
    pub closed spec fn cursor(&self) -> Option<&'a mut Node<T>> {
        self.next
    }

    /// An iterator that is no longer used leaves the elements it has not
    /// visited as they are.
    pub broadcast proof fn lemma_unvisited_stay(self)
        ensures
            #[trigger] has_resolved(self) ==> (match self.cursor() {
                None => true,
                Some(node) => final(node)@ == node@,
            }),
    {
    }

    /// The next element by mutable borrow: the element at the cursor, and
    /// none without a cursor. The cursor moves on to the next node, so no
    /// element is handed out twice. What the chain behind the old cursor
    /// holds in the end is what the caller leaves in the element, followed
    /// by what the chain behind the new cursor holds in the end.
    pub fn next(&mut self) -> (item: Option<&'a mut T>)
        ensures
            match item {
                None => old(self)@.len() == 0 && final(self)@.len() == 0,
                Some(elem) => {
                    &&& old(self)@.len() > 0
                    &&& *elem == old(self)@[0]
                    &&& final(self)@ == old(self)@.skip(1)
                    &&& final(old(self).cursor()->0)@ == seq![*final(elem)] + (match final(self).cursor() {
                        None => Seq::empty(),
                        Some(node) => final(node)@,
                    })
                },
            },
    {
        match self.next.take() {
            None => None,
            Some(node) => {
                assert(elems(node.next) =~= old(self)@.skip(1));
                self.next = match &mut node.next {
                    None => None,
                    Some(following) => Some(&mut **following),
                };
                Some(&mut node.elem)
            },
        }
    }
}

} // verus!
