//! A persistent list: a singly linked chain of reference-counted nodes, so
//! that several lists can share one tail. A list never changes the nodes it
//! shares with another; what depends on whether a node is shared is decided
//! by the reference count at run time, and the contracts say what holds
//! either way.

use std::rc::Rc;
use vstd::prelude::*;

verus! {

/// A persistent list of `T`. Its view is the sequence of its elements, the
/// most recently prepended one first.
pub struct List<T> {
    head: Link<T>,
}

type Link<T> = Option<Rc<Node<T>>>;

/// One cell of the chain. Its view is its own element followed by the
/// elements of every node after it.
pub struct Node<T> {
    elem: T,
    next: Link<T>,
}

/// Walks a list by value for as long as the list is the only owner of the
/// node it has come to. Its view is the elements between it and the end of
/// the chain.
pub struct IntoIter<T>(List<T>);

/// Walks a list by shared borrow. Its view is what is still to come.
pub struct Iter<'a, T> {
    next: Option<&'a Node<T>>,
}

/// Walks a list by mutable borrow for as long as the list is the only owner
/// of the nodes it comes to. It holds the first node not yet visited, if it
/// may change that node.
pub struct IterMut<'a, T> {
    next: Option<&'a mut Node<T>>,
}

/// The elements of the chain that starts at `link`, in chain order.
spec fn elems<T>(link: Link<T>) -> Seq<T>
    decreases link,
{
    match link {
        None => Seq::empty(),
        Some(node) => seq![node.elem] + elems(node.next),
    }
}

/// What `tail` makes of a list with the elements `s`: all but the first, and
/// nothing where there is none.
pub open spec fn tail_of<T>(s: Seq<T>) -> Seq<T> {
    if s.len() == 0 {
        s
    } else {
        s.skip(1)
    }
}

/// Taking the tail undoes a prepend. So two lists made by prepending to one
/// list have that list for a tail, whatever becomes of the other.
pub proof fn lemma_tail_of_prepend<T>(s: Seq<T>, a: T, b: T)
    ensures
        tail_of(seq![a] + s) == s,
        tail_of(seq![b] + s) == s,
        tail_of(tail_of(seq![b] + (seq![a] + s))) == s,
{
    assert((seq![a] + s).skip(1) =~= s);
    assert((seq![b] + s).skip(1) =~= s);
    assert((seq![b] + (seq![a] + s)).skip(1) =~= seq![a] + s);
}

impl<T> View for Node<T> {
    type V = Seq<T>;

    closed spec fn view(&self) -> Seq<T> {
        seq![self.elem] + elems(self.next)
    }
}

impl<T> View for List<T> {
    type V = Seq<T>;

    closed spec fn view(&self) -> Seq<T> {
        elems(self.head)
    }
}

impl<T> View for IntoIter<T> {
    type V = Seq<T>;

    closed spec fn view(&self) -> Seq<T> {
        self.0@
    }
}

impl<'a, T> View for Iter<'a, T> {
    type V = Seq<T>;

    closed spec fn view(&self) -> Seq<T> {
        match self.next {
            None => Seq::empty(),
            Some(node) => node@,
        }
    }
}

impl<'a, T> View for IterMut<'a, T> {
    type V = Seq<T>;

    /// The current values of the elements from the cursor to the end of the
    /// chain. The iterator reaches them as far as the nodes are not shared.
    open spec fn view(&self) -> Seq<T> {
        match self.cursor() {
            None => Seq::empty(),
            Some(node) => node@,
        }
    }
}

/// `Rc::get_mut`: a mutable borrow of the value inside `rc` where no other
/// pointer shares it, and nothing otherwise. The contract says that the
/// borrow, where there is one, is of the value that `rc` holds, so that
/// what the caller leaves in it is what `rc` holds afterwards; and that
/// without a borrow `rc` holds what it held. It does not say which of the
/// two happens: that depends on the reference count.
#[verifier::external_body]
fn rc_get_mut<T>(rc: &mut Rc<T>) -> (inner: Option<&mut T>)
    ensures
        match inner {
            None => *final(rc) == *old(rc),
            Some(value) => *value == **old(rc) && **final(rc) == *final(value),
        },
{
    Rc::get_mut(rc)
}

/// `Rc::try_unwrap`, for the teardown in `clear`: the value inside `rc`
/// where no other pointer shares it, and `rc` itself otherwise. The contract
/// says that what comes back, either way, holds what `rc` held, and that the
/// call neither panics nor opens an invariant, which a teardown that runs on
/// drop has to know. It does not say which of the two happens: that depends
/// on the reference count.
#[verifier::external_body]
fn rc_try_unwrap<T>(rc: Rc<T>) -> (unwrapped: Result<T, Rc<T>>)
    ensures
        match unwrapped {
            Ok(value) => value == *rc,
            Err(shared) => *shared == *rc,
        },
    opens_invariants none
    no_unwind
{
    Rc::try_unwrap(rc)
}

impl<T> Node<T> {
    /// A node has at least its own element.
    pub broadcast proof fn lemma_view_nonempty(self)
        ensures
            #[trigger] self@.len() > 0,
    {
    }
}

impl<T> List<T> {
    /// An empty list.
    pub fn new() -> (list: Self)
        ensures
            list@ == Seq::<T>::empty(),
    {
        List { head: None }
    }

    /// A new list: `elem` followed by the elements of this list. The new
    /// head node shares this list's chain; this list is not changed.
    pub fn prepend(&self, elem: T) -> (list: List<T>)
        ensures
            list@ == seq![elem] + self@,
    {
        List {
            head: Some(
                Rc::new(
                    Node {
                        elem: elem,
                        next: match &self.head {
                            None => None,
                            Some(node) => Some(node.clone()),
                        },
                    },
                ),
            ),
        }
    }

    /// A new list: this list without its first element, or an empty list
    /// where this list is empty. The new list shares the chain behind this
    /// list's head node; this list is not changed.
    pub fn tail(&self) -> (list: List<T>)
        ensures
            list@ == tail_of(self@),
    {
        List {
            head: match &self.head {
                None => None,
                Some(node) => {
                    assert(elems(node.next) =~= self@.skip(1));
                    match &node.next {
                        None => None,
                        Some(following) => Some(following.clone()),
                    }
                },
            },
        }
    }

    /// The first element, if there is one.
    pub fn head(&self) -> (first: Option<&T>)
        ensures
            match first {
                None => self@.len() == 0,
                Some(elem) => self@.len() > 0 && *elem == self@[0],
            },
    {
        match &self.head {
            None => None,
            Some(node) => Some(&node.elem),
        }
    }

    /// Hands the list over to an iterator that yields its elements by value,
    /// first element first, as far as no other list shares them.
    pub fn into_iter(self) -> (it: IntoIter<T>)
        ensures
            it@ == self@,
    {
        IntoIter(self)
    }

    /// An iterator over shared borrows of the elements, first element first.
    pub fn iter(&self) -> (it: Iter<'_, T>)
        ensures
            it@ == self@,
    {
        Iter {
            next: match &self.head {
                None => None,
                Some(node) => Some(&**node),
            },
        }
    }

    /// An iterator over mutable borrows of the elements, first element
    /// first, as far as no other list shares them. With a cursor, the cursor
    /// is on the head node, and the list holds in the end what the chain
    /// behind the cursor holds in the end. Without one (the list is empty,
    /// or its head node is shared) the list stays as it is.
    pub fn iter_mut(&mut self) -> (it: IterMut<'_, T>)
        ensures
            match it.cursor() {
                None => final(self)@ == old(self)@,
                Some(node) => node@ == old(self)@ && final(self)@ == final(node)@,
            },
            old(self)@.len() == 0 ==> it.cursor() is None,
    {
        IterMut {
            next: match &mut self.head {
                None => None,
                Some(node) => rc_get_mut(node),
            },
        }
    }

    /// Releases the nodes that only this list owns, one per turn of the
    /// loop, up to the first node that another list shares, and leaves this
    /// list empty. The nodes from the shared one on stay with their other
    /// owners.
    pub fn clear(&mut self)
        ensures
            final(self)@ == Seq::<T>::empty(),
        opens_invariants none
        no_unwind
    {
        let mut head: Link<T> = None;
        core::mem::swap(&mut self.head, &mut head);
        loop
            decreases head,
        {
            match head {
                None => {
                    break ;
                },
                Some(node) => {
                    match rc_try_unwrap(node) {
                        Ok(mut node) => {
                            head = None;
                            core::mem::swap(&mut node.next, &mut head);
                        },
                        Err(_) => {
                            break ;
                        },
                    }
                },
            }
        }
    }
}

/// A list that goes out of scope is cleared first, so that the nodes that
/// only it owns are released by the loop of `clear` and not node inside
/// node.
impl<T> Drop for List<T> {
    fn drop(&mut self)
        ensures
            final(self)@ == Seq::<T>::empty(),
        opens_invariants none
        no_unwind
    {
        self.clear();
    }
}

impl<T> IntoIter<T> {
    /// The next element by value. On an empty list there is none. Otherwise
    /// there is one exactly if the list is the only owner of its head node:
    /// then the element is taken out of the node and the list goes on with
    /// the rest. If the head node is shared, the iterator gives the list up
    /// and is empty from then on; the shared nodes are not touched.
    pub fn next(&mut self) -> (item: Option<T>)
        ensures
            match item {
                None => final(self)@.len() == 0,
                Some(elem) => old(self)@.len() > 0 && elem == old(self)@[0] && final(self)@ == old(self)@.skip(1),
            },
            old(self)@.len() == 0 ==> item is None,
    {
        match self.0.head.take() {
            None => None,
            Some(rc_node) => {
                assert(rc_node@ == old(self)@);
                self.resume(Rc::try_unwrap(rc_node))
            },
        }
    }

    /// Goes on after the attempt to take the head node out of its reference
    /// count, which `next` makes once it has taken the node off the list.
    /// With the node itself, yields the node's element and goes on with the
    /// chain behind it. With the shared pointer handed back, yields nothing
    /// and leaves the iterator as it is; the shared node is not touched.
    pub fn resume(&mut self, unwrapped: Result<Node<T>, Rc<Node<T>>>) -> (item: Option<T>)
        ensures
            match unwrapped {
                Ok(node) => item == Some(node@[0]) && final(self)@ == node@.skip(1),
                Err(_) => item is None && final(self)@ == old(self)@,
            },
    {
        match unwrapped {
            Ok(mut node) => {
                assert(elems(node.next) =~= node@.skip(1));
                self.0.head = node.next.take();
                Some(node.elem)
            },
            Err(_) => None,
        }
    }
}

impl<'a, T> Iter<'a, T> {
    /// The next element by shared borrow.
    pub fn next(&mut self) -> (item: Option<&'a T>)
        ensures
            match item {
                None => old(self)@.len() == 0 && final(self)@ == old(self)@,
                Some(elem) => old(self)@.len() > 0 && *elem == old(self)@[0] && final(self)@ == old(self)@.skip(1),
            },
    {
        match self.next {
            None => None,
            Some(node) => {
                assert(elems(node.next) =~= old(self)@.skip(1));
                self.next = match &node.next {
                    None => None,
                    Some(following) => Some(&**following),
                };
                Some(&node.elem)
            },
        }
    }
}

impl<'a, T> IterMut<'a, T> {
    /// The first node not yet visited, if the iterator may change it.
    pub closed spec fn cursor(&self) -> Option<&'a mut Node<T>> {
        self.next
    }

    /// An iterator that is no longer used leaves the elements it has not
    /// visited as they are.
    pub broadcast proof fn lemma_unvisited_stay(self)
        ensures
            #[trigger] has_resolved(self) ==> (match self.cursor() {
                None => true,
                Some(node) => final(node)@ == node@,
            }),
    {
    }

    /// The next element by mutable borrow: the element at the cursor, and
    /// none without a cursor. The cursor moves to the next node if there is
    /// one and no other list shares it; otherwise the iterator has no cursor
    /// from then on, and the rest of the chain stays as it is. What the
    /// chain behind the old cursor holds in the end is what the caller leaves
    /// in the element, followed by what the rest of the chain holds in the
    /// end.
    pub fn next(&mut self) -> (item: Option<&'a mut T>)
        ensures
            match item {
                None => old(self).cursor() is None && final(self).cursor() is None,
                Some(elem) => {
                    &&& old(self).cursor() matches Some(node)
                    &&& *elem == node@[0]
                    &&& match final(self).cursor() {
                        None => final(node)@ == seq![*final(elem)] + node@.skip(1),
                        Some(rest) => rest@ == node@.skip(1) && final(node)@ == seq![*final(elem)]
                            + final(rest)@,
                    }
                },
            },
    {
        match self.next.take() {
            None => None,
            Some(node) => {
                assert(elems(node.next) =~= node@.skip(1));
                match &mut node.next {
                    None => {},
                    Some(following) => {
                        self.next = rc_get_mut(following);
                    },
                }
                Some(&mut node.elem)
            },
        }
    }
}

} // verus!
