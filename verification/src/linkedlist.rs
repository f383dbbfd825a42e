//! A doubly linked deque. Its nodes live in the slots of an arena and name
//! their neighbours by slot index, so a link never owns the node it names and
//! never outlives it: a slot is filled when a node is pushed, emptied exactly
//! once when that node is popped, and handed out again by a free list.

use vstd::prelude::*;

verus! {

/// A link names the slot of a node, or nothing.
type Link = Option<usize>;

struct Node<T> {
    /// The neighbour on the front side.
    front: Link,
    /// The neighbour on the back side.
    back: Link,
    elem: T,
}

/// A deque of `T`. Its view is the sequence of its elements, front first.
pub struct LinkedList<T> {
    front: Link,
    back: Link,
    len: usize,
    /// The arena: a slot holds a live node or is vacant.
    slots: Vec<Option<Node<T>>>,
    /// The vacant slots, the one vacated last on top.
    free: Vec<usize>,
    /// The slots of the live nodes in deque order, front first.
    chain: Ghost<Seq<usize>>,
}

/// Slot `chain[k]` holds a node, and that node's links name the slots that
/// stand before and after it in `chain`.
spec fn linked<T>(slots: Seq<Option<Node<T>>>, chain: Seq<usize>, k: int) -> bool {
    &&& chain[k] < slots.len()
    &&& slots[chain[k] as int] matches Some(node)
    &&& node.front == (if k == 0 {
        None
    } else {
        Some(chain[k - 1])
    })
    &&& node.back == (if k == chain.len() - 1 {
        None
    } else {
        Some(chain[k + 1])
    })
}

/// Slot `free[k]` exists and is vacant.
spec fn vacant<T>(slots: Seq<Option<Node<T>>>, free: Seq<usize>, k: int) -> bool {
    free[k] < slots.len() && slots[free[k] as int] is None
}

/// Slot `i` is vacant or one of the slots of `chain`: no node is lost.
spec fn in_chain<T>(slots: Seq<Option<Node<T>>>, chain: Seq<usize>, i: usize) -> bool {
    slots[i as int] is Some ==> chain.contains(i)
}

/// Writes `link` into the front link of the node in slot `at`.
fn set_front<T>(slots: &mut Vec<Option<Node<T>>>, at: usize, link: Link)
    requires
        at < old(slots)@.len(),
        old(slots)@[at as int] is Some,
    ensures
        final(slots)@.len() == old(slots)@.len(),
        forall|j: int| 0 <= j < old(slots)@.len() && j != at ==> final(slots)@[j] == old(slots)@[j],
        final(slots)@[at as int] matches Some(node) && node.front == link && node.back == old(slots)@[at as int]->0.back && node.elem == old(slots)@[at as int]->0.elem,
{
    match &mut slots[at] {
        Some(node) => {
            node.front = link;
        },
        None => {},
    }
}

/// Writes `link` into the back link of the node in slot `at`.
fn set_back<T>(slots: &mut Vec<Option<Node<T>>>, at: usize, link: Link)
    requires
        at < old(slots)@.len(),
        old(slots)@[at as int] is Some,
    ensures
        final(slots)@.len() == old(slots)@.len(),
        forall|j: int| 0 <= j < old(slots)@.len() && j != at ==> final(slots)@[j] == old(slots)@[j],
        final(slots)@[at as int] matches Some(node) && node.back == link && node.front == old(slots)@[at as int]->0.front && node.elem == old(slots)@[at as int]->0.elem,
{
    match &mut slots[at] {
        Some(node) => {
            node.back = link;
        },
        None => {},
    }
}

/// The arena is laid out properly: `chain` and `free` name different slots,
/// each slot once, and between them all the slots; the slots of `free` are
/// vacant; the slots of `chain` hold nodes linked in the order of `chain`.
spec fn laid_out<T>(slots: Seq<Option<Node<T>>>, chain: Seq<usize>, free: Seq<usize>) -> bool {
    &&& chain.len() + free.len() == slots.len()
    &&& chain.no_duplicates()
    &&& free.no_duplicates()
    &&& forall|k: int| 0 <= k < free.len() ==> #[trigger] vacant(slots, free, k)
    &&& forall|k: int| 0 <= k < chain.len() ==> #[trigger] linked(slots, chain, k)
    &&& forall|i: usize| i < slots.len() ==> #[trigger] in_chain(slots, chain, i)
}

/// Filling a slot that is new or was on top of the free list leaves the
/// chain as it was, and the slot is none of the chain's.
proof fn lemma_slot_filled<T>(
    slots0: Seq<Option<Node<T>>>,
    free0: Seq<usize>,
    chain: Seq<usize>,
    slots1: Seq<Option<Node<T>>>,
    free1: Seq<usize>,
    new: usize,
)
    requires
        laid_out(slots0, chain, free0),
        slots1.len() > new,
        slots1[new as int] is Some,
        free0.len() > 0 ==> new == free0[free0.len() - 1] && free1 == free0.subrange(0, free0.len() - 1)
            && slots1.len() == slots0.len(),
        free0.len() == 0 ==> new == slots0.len() && free1 == free0 && slots1.len() == slots0.len() + 1,
        forall|j: int| 0 <= j < slots0.len() && j != new ==> slots1[j] == slots0[j],
    ensures
        chain.len() + 1 + free1.len() == slots1.len(),
        free1.no_duplicates(),
        forall|k: int| 0 <= k < free1.len() ==> #[trigger] vacant(slots1, free1, k),
        forall|k: int| 0 <= k < chain.len() ==> #[trigger] linked(slots1, chain, k),
        forall|k: int| 0 <= k < chain.len() ==> #[trigger] chain[k] != new,
        forall|i: usize| i < slots1.len() && i != new ==> #[trigger] in_chain(slots1, chain, i),
{
    assert forall|i: usize| i < slots1.len() && i != new implies #[trigger] in_chain(slots1, chain, i) by {
        assert(in_chain(slots0, chain, i));
    }
    if free0.len() > 0 {
        assert(vacant(slots0, free0, free0.len() - 1));
    }
    assert forall|k: int| 0 <= k < chain.len() implies #[trigger] chain[k] != new && linked(slots1, chain, k) by {
        assert(linked(slots0, chain, k));
    }
    assert forall|k: int| 0 <= k < free1.len() implies #[trigger] vacant(slots1, free1, k) by {
        assert(vacant(slots0, free0, k));
        assert(free1[k] == free0[k]);
    }
}

/// Linking a freshly filled slot in before the front of the chain gives a
/// properly laid out arena whose chain starts with that slot.
proof fn lemma_pushed<T>(
    slots1: Seq<Option<Node<T>>>,
    slots: Seq<Option<Node<T>>>,
    chain0: Seq<usize>,
    free: Seq<usize>,
    new: usize,
)
    requires
        chain0.len() + 1 + free.len() == slots1.len(),
        chain0.no_duplicates(),
        free.no_duplicates(),
        forall|k: int| 0 <= k < free.len() ==> #[trigger] vacant(slots1, free, k),
        forall|k: int| 0 <= k < chain0.len() ==> #[trigger] linked(slots1, chain0, k),
        forall|k: int| 0 <= k < chain0.len() ==> #[trigger] chain0[k] != new,
        forall|i: usize| i < slots1.len() && i != new ==> #[trigger] in_chain(slots1, chain0, i),
        new < slots1.len(),
        slots1[new as int] matches Some(node) && node.front is None && node.back is None,
        slots.len() == slots1.len(),
        forall|j: int|
            0 <= j < slots1.len() && j != new && (chain0.len() == 0 || j != chain0[0])
                ==> slots[j] == slots1[j],
        slots[new as int] matches Some(node) && node.front is None && node.elem
            == slots1[new as int]->0.elem && node.back == (if chain0.len() == 0 {
            None
        } else {
            Some(chain0[0])
        }),
        chain0.len() > 0 ==> (slots[chain0[0] as int] matches Some(node) && node.front == Some(new)
            && node.back == slots1[chain0[0] as int]->0.back && node.elem
            == slots1[chain0[0] as int]->0.elem),
    ensures
        laid_out(slots, seq![new] + chain0, free),
{
    let chain = seq![new] + chain0;
    assert forall|i: usize| i < slots.len() implies #[trigger] in_chain(slots, chain, i) by {
        if i == new {
            assert(chain[0] == new);
        } else if slots[i as int] is Some {
            assert(in_chain(slots1, chain0, i));
            if chain0.len() > 0 {
                assert(linked(slots1, chain0, 0));
            }
            let k = choose|k: int| 0 <= k < chain0.len() && chain0[k] == i;
            assert(chain[k + 1] == i);
        }
    }
    assert forall|k: int| 0 <= k < chain.len() implies #[trigger] linked(slots, chain, k) by {
        if k > 0 {
            assert(linked(slots1, chain0, k - 1));
            assert(chain[k] == chain0[k - 1]);
            assert(chain0[k - 1] != new);
            if k > 1 {
                assert(chain0[k - 1] != chain0[0]);
                assert(chain[k - 1] == chain0[k - 2]);
            }
            if k < chain.len() - 1 {
                assert(chain[k + 1] == chain0[k]);
            }
        } else {
            if chain0.len() > 0 {
                assert(chain[1] == chain0[0]);
            }
        }
    }
    assert forall|k: int| 0 <= k < free.len() implies #[trigger] vacant(slots, free, k) by {
        assert(vacant(slots1, free, k));
        if chain0.len() > 0 {
            assert(linked(slots1, chain0, 0));
        }
    }
    assert forall|i: int, j: int| 0 <= i < chain.len() && 0 <= j < chain.len() && i != j implies chain[i]
        != chain[j] by {
        if i > 0 {
            assert(chain[i] == chain0[i - 1]);
            assert(chain0[i - 1] != new);
        }
        if j > 0 {
            assert(chain[j] == chain0[j - 1]);
            assert(chain0[j - 1] != new);
        }
    }
}

/// Vacating the slot at the front of the chain, and clearing the front link
/// of the node behind it, gives a properly laid out arena whose chain is the
/// rest of the old one.
proof fn lemma_popped<T>(
    slots0: Seq<Option<Node<T>>>,
    slots: Seq<Option<Node<T>>>,
    chain0: Seq<usize>,
    free0: Seq<usize>,
)
    requires
        laid_out(slots0, chain0, free0),
        chain0.len() > 0,
        slots.len() == slots0.len(),
        slots[chain0[0] as int] is None,
        forall|j: int|
            0 <= j < slots0.len() && j != chain0[0] && (chain0.len() == 1 || j != chain0[1])
                ==> slots[j] == slots0[j],
        chain0.len() > 1 ==> (slots[chain0[1] as int] matches Some(node) && node.front is None
            && node.back == slots0[chain0[1] as int]->0.back && node.elem
            == slots0[chain0[1] as int]->0.elem),
    ensures
        laid_out(slots, chain0.skip(1), free0.push(chain0[0])),
{
    let chain = chain0.skip(1);
    let free = free0.push(chain0[0]);
    assert(linked(slots0, chain0, 0));
    assert forall|i: usize| i < slots.len() implies #[trigger] in_chain(slots, chain, i) by {
        if slots[i as int] is Some {
            assert(in_chain(slots0, chain0, i));
            if chain0.len() > 1 {
                assert(linked(slots0, chain0, 1));
            }
            let k = choose|k: int| 0 <= k < chain0.len() && chain0[k] == i;
            assert(chain[k - 1] == i);
        }
    }
    assert forall|k: int| 0 <= k < chain.len() implies #[trigger] linked(slots, chain, k) by {
        assert(linked(slots0, chain0, k + 1));
        assert(chain[k] == chain0[k + 1]);
        assert(chain0[k + 1] != chain0[0]);
        if k > 0 {
            assert(chain0[k + 1] != chain0[1]);
            assert(chain[k - 1] == chain0[k]);
        }
        if k < chain.len() - 1 {
            assert(chain[k + 1] == chain0[k + 2]);
        }
    }
    assert forall|k: int| 0 <= k < free.len() implies #[trigger] vacant(slots, free, k) by {
        if k < free0.len() {
            assert(vacant(slots0, free0, k));
            assert(free[k] == free0[k]);
            if chain0.len() > 1 {
                assert(linked(slots0, chain0, 1));
            }
        }
    }
    assert forall|i: int, j: int| 0 <= i < free.len() && 0 <= j < free.len() && i != j implies free[i]
        != free[j] by {
        if i < free0.len() {
            assert(vacant(slots0, free0, i));
        }
        if j < free0.len() {
            assert(vacant(slots0, free0, j));
        }
    }
    assert forall|i: int, j: int| 0 <= i < chain.len() && 0 <= j < chain.len() && i != j implies chain[i]
        != chain[j] by {
        assert(chain[i] == chain0[i + 1]);
        assert(chain[j] == chain0[j + 1]);
    }
}

impl<T> View for LinkedList<T> {
    type V = Seq<T>;

    closed spec fn view(&self) -> Seq<T> {
        Seq::new(self.chain@.len(), |k: int| self.slots@[self.chain@[k] as int]->0.elem)
    }
}

impl<T> LinkedList<T> {
    /// The deque is consistent: every slot of the arena is either the slot of
    /// exactly one live node or exactly one entry of the free list; the live
    /// nodes form one chain from `front` to `back` in which neighbours name
    /// each other; and `len` is the number of live nodes.
    pub closed spec fn wf(&self) -> bool {
        let chain = self.chain@;
        let free = self.free@;
        let slots = self.slots@;
        &&& chain.len() == self.len
        &&& laid_out(slots, chain, free)
        &&& self.front == (if chain.len() == 0 {
            None
        } else {
            Some(chain[0])
        })
        &&& self.back == (if chain.len() == 0 {
            None
        } else {
            Some(chain[chain.len() - 1])
        })
    }

    /// The link to the front node.
    pub closed spec fn front_link(&self) -> Option<usize> {
        self.front
    }

    /// The link to the back node.
    pub closed spec fn back_link(&self) -> Option<usize> {
        self.back
    }

    /// The number of slots in the arena, vacant ones included.
    pub closed spec fn slot_count(&self) -> nat {
        self.slots@.len()
    }

    /// Slot `slot` exists and holds a live node.
    pub closed spec fn holds_node(&self, slot: usize) -> bool {
        slot < self.slots@.len() && self.slots@[slot as int] is Some
    }

    /// The front link of the node in `slot`: its neighbour on the front side.
    pub closed spec fn link_to_front(&self, slot: usize) -> Option<usize> {
        self.slots@[slot as int]->0.front
    }

    /// The back link of the node in `slot`: its neighbour on the back side.
    pub closed spec fn link_to_back(&self, slot: usize) -> Option<usize> {
        self.slots@[slot as int]->0.back
    }

    /// The element of the node in `slot`.
    pub closed spec fn elem_at(&self, slot: usize) -> T {
        self.slots@[slot as int]->0.elem
    }

    /// The slots met by starting at `from` and following back links, for at
    /// most `fuel` steps, until a link names nothing or no live node.
    pub open spec fn walk_to_back(&self, from: Option<usize>, fuel: nat) -> Seq<usize>
        decreases fuel,
    {
        match from {
            None => Seq::empty(),
            Some(slot) => if fuel > 0 && self.holds_node(slot) {
                seq![slot] + self.walk_to_back(self.link_to_back(slot), (fuel - 1) as nat)
            } else {
                Seq::empty()
            },
        }
    }

    /// The slots of the nodes that can be reached from the front link. A walk
    /// that does not run in a circle meets no more nodes than there are slots.
    pub open spec fn reachable(&self) -> Seq<usize> {
        self.walk_to_back(self.front_link(), self.slot_count())
    }

    /// The slots met by starting at `from` and following front links, for at
    /// most `fuel` steps, until a link names nothing or no live node.
    pub open spec fn walk_to_front(&self, from: Option<usize>, fuel: nat) -> Seq<usize>
        decreases fuel,
    {
        match from {
            None => Seq::empty(),
            Some(slot) => if fuel > 0 && self.holds_node(slot) {
                seq![slot] + self.walk_to_front(self.link_to_front(slot), (fuel - 1) as nat)
            } else {
                Seq::empty()
            },
        }
    }

    /// The slots of the nodes that can be reached from the back link.
    pub open spec fn reachable_from_back(&self) -> Seq<usize> {
        self.walk_to_front(self.back_link(), self.slot_count())
    }

    /// A walk along the front links that starts at the `k`-th node of the
    /// chain, with fuel for the chain up to it, meets that part of the chain
    /// backwards.
    proof fn lemma_walk_to_front(&self, k: int, fuel: nat)
        requires
            self.wf(),
            -1 <= k < self.chain@.len(),
            fuel >= k + 1,
        ensures
            self.walk_to_front(
                if k >= 0 {
                    Some(self.chain@[k])
                } else {
                    None
                },
                fuel,
            ) == self.chain@.take(k + 1).reverse(),
        decreases k + 1,
    {
        let chain = self.chain@;
        if k >= 0 {
            assert(linked(self.slots@, chain, k));
            self.lemma_walk_to_front(k - 1, (fuel - 1) as nat);
            assert(seq![chain[k]] + chain.take(k).reverse() =~= chain.take(k + 1).reverse());
        } else {
            assert(chain.take(0).reverse() =~= Seq::<usize>::empty());
        }
    }

    /// A walk along the back links that starts at the `k`-th node of the
    /// chain, with fuel for the rest of the chain, meets just that rest.
    proof fn lemma_walk_to_back(&self, k: int, fuel: nat)
        requires
            self.wf(),
            0 <= k <= self.chain@.len(),
            fuel >= self.chain@.len() - k,
        ensures
            self.walk_to_back(
                if k < self.chain@.len() {
                    Some(self.chain@[k])
                } else {
                    None
                },
                fuel,
            ) == self.chain@.skip(k),
        decreases self.chain@.len() - k,
    {
        let chain = self.chain@;
        if k < chain.len() {
            assert(linked(self.slots@, chain, k));
            self.lemma_walk_to_back(k + 1, (fuel - 1) as nat);
            assert(seq![chain[k]] + chain.skip(k + 1) =~= chain.skip(k));
        } else {
            assert(chain.skip(k) =~= Seq::<usize>::empty());
        }
    }

    /// In a consistent deque the number of elements is the number of nodes
    /// that can be reached from the front link; no node is reached twice;
    /// every live node is reached; and the elements of the deque are the
    /// elements of the reached nodes, in the order of the walk.
    pub proof fn lemma_len_counts_reachable(&self)
        requires
            self.wf(),
        ensures
            self.reachable().len() == self@.len(),
            self.reachable().no_duplicates(),
            forall|slot: usize| self.holds_node(slot) <==> self.reachable().contains(slot),
            forall|k: int|
                0 <= k < self@.len() ==> self@[k] == self.elem_at(#[trigger] self.reachable()[k]),
    {
        self.lemma_walk_to_back(0, self.slot_count());
        assert(self.chain@.skip(0) =~= self.chain@);
        assert forall|slot: usize| self.holds_node(slot) <==> self.chain@.contains(slot) by {
            if self.holds_node(slot) {
                assert(in_chain(self.slots@, self.chain@, slot));
            }
            if self.chain@.contains(slot) {
                let k = choose|k: int| 0 <= k < self.chain@.len() && self.chain@[k] == slot;
                assert(linked(self.slots@, self.chain@, k));
            }
        }
    }

    /// In a consistent deque the front link, the back link and the length
    /// agree on whether the deque is empty.
    pub proof fn lemma_ends_agree(&self)
        requires
            self.wf(),
        ensures
            self.front_link() is None <==> self@.len() == 0,
            self.back_link() is None <==> self@.len() == 0,
            self.front_link() matches Some(slot) ==> self.holds_node(slot) && self.link_to_front(slot) is None,
            self.back_link() matches Some(slot) ==> self.holds_node(slot) && self.link_to_back(slot) is None,
    {
        if self.chain@.len() > 0 {
            assert(linked(self.slots@, self.chain@, 0));
            assert(linked(self.slots@, self.chain@, self.chain@.len() - 1));
        }
    }

    /// In a consistent deque the walk from the back link along the front
    /// links meets the nodes that the walk from the front link meets, in the
    /// opposite order.
    pub proof fn lemma_back_walk_mirrors(&self)
        requires
            self.wf(),
        ensures
            self.reachable_from_back() == self.reachable().reverse(),
    {
        let chain = self.chain@;
        self.lemma_walk_to_back(0, self.slot_count());
        self.lemma_walk_to_front(chain.len() - 1, self.slot_count());
        assert(chain.skip(0) =~= chain);
        assert(chain.take(chain.len() as int) =~= chain);
    }

    /// In a consistent deque a link of a live node names another live node.
    pub proof fn lemma_links_live(&self, a: usize)
        requires
            self.wf(),
            self.holds_node(a),
        ensures
            self.link_to_back(a) matches Some(b) ==> self.holds_node(b) && b != a,
            self.link_to_front(a) matches Some(b) ==> self.holds_node(b) && b != a,
    {
        let chain = self.chain@;
        assert(in_chain(self.slots@, chain, a));
        let i = choose|i: int| 0 <= i < chain.len() && chain[i] == a;
        assert(linked(self.slots@, chain, i));
        if i > 0 {
            assert(linked(self.slots@, chain, i - 1));
        }
        if i < chain.len() - 1 {
            assert(linked(self.slots@, chain, i + 1));
        }
    }

    /// In a consistent deque two live nodes are linked both ways or not at
    /// all: the back link of `a` names `b` exactly when the front link of `b`
    /// names `a`.
    pub proof fn lemma_links_mutual(&self, a: usize, b: usize)
        requires
            self.wf(),
            self.holds_node(a),
            self.holds_node(b),
        ensures
            self.link_to_back(a) == Some(b) <==> self.link_to_front(b) == Some(a),
    {
        let chain = self.chain@;
        assert(in_chain(self.slots@, chain, a));
        assert(in_chain(self.slots@, chain, b));
        let i = choose|i: int| 0 <= i < chain.len() && chain[i] == a;
        let j = choose|j: int| 0 <= j < chain.len() && chain[j] == b;
        assert(linked(self.slots@, chain, i));
        assert(linked(self.slots@, chain, j));
    }

    /// An empty deque.
    pub fn new() -> (list: Self)
        ensures
            list.wf(),
            list@ == Seq::<T>::empty(),
    {
        let list = LinkedList {
            front: None,
            back: None,
            len: 0,
            slots: Vec::new(),
            free: Vec::new(),
            chain: Ghost(Seq::empty()),
        };
        assert(list@ =~= Seq::<T>::empty());
        list
    }

    /// Puts `elem` in front. The new node goes into a vacant slot, or into a
    /// new one when none is vacant; it and the old front node, if there is
    /// one, are linked to each other; with no old front node the new node is
    /// the back as well. Every other node stays where and what it was.
    pub fn push_front(&mut self, elem: T)
        requires
            old(self).wf(),
        ensures
            final(self).wf(),
            final(self)@ == seq![elem] + old(self)@,
            final(self).front_link() matches Some(new) && {
                &&& !old(self).holds_node(new)
                &&& final(self).elem_at(new) == elem
                &&& final(self).link_to_front(new) is None
                &&& final(self).link_to_back(new) == old(self).front_link()
                &&& forall|s: usize|
                    #[trigger] final(self).holds_node(s) <==> s == new || old(self).holds_node(s)
                &&& forall|s: usize| #[trigger]
                    old(self).holds_node(s) ==> {
                        &&& final(self).elem_at(s) == old(self).elem_at(s)
                        &&& final(self).link_to_back(s) == old(self).link_to_back(s)
                        &&& final(self).link_to_front(s) == (if old(self).front_link() == Some(s) {
                            Some(new)
                        } else {
                            old(self).link_to_front(s)
                        })
                    }
            },
            final(self).back_link() == (if old(self).back_link() is None {
                final(self).front_link()
            } else {
                old(self).back_link()
            }),
    {
        let ghost chain0 = self.chain@;
        let ghost slots0 = self.slots@;
        let ghost free0 = self.free@;
        let node = Node { front: None, back: None, elem };
        let new: usize = match self.free.pop() {
            Some(slot) => {
                assert(vacant(slots0, free0, free0.len() - 1));
                self.slots[slot] = Some(node);
                slot
            },
            None => {
                self.slots.push(Some(node));
                self.slots.len() - 1
            },
        };
        let ghost slots1 = self.slots@;
        proof {
            lemma_slot_filled(slots0, free0, chain0, slots1, self.free@, new);
        }
        match self.front {
            Some(old_front) => {
                assert(linked(slots1, chain0, 0));
                set_front(&mut self.slots, old_front, Some(new));
                set_back(&mut self.slots, new, Some(old_front));
            },
            None => {
                self.back = Some(new);
            },
        }
        self.front = Some(new);
        assert(self.len < self.slots.len());
        self.len += 1;
        proof {
            self.chain@ = seq![new] + chain0;
            lemma_pushed(slots1, self.slots@, chain0, self.free@, new);
            assert forall|k: int| 0 <= k < chain0.len() implies self.slots@[chain0[k] as int]->0.elem
                == slots0[chain0[k] as int]->0.elem by {
                assert(linked(slots0, chain0, k));
                assert(chain0[k] != new);
            }
            assert(final(self)@ =~= seq![elem] + old(self)@);
        }
    }

    /// Takes the front element off, or returns `None` and leaves the deque as
    /// it is when there is none. The slot of the node is vacated here and
    /// nowhere else; the node behind it, if there is one, becomes the front
    /// and loses its front link; with no node behind it the deque has no back
    /// either. Every other node stays where and what it was.
    pub fn pop_front(&mut self) -> (popped: Option<T>)
        requires
            old(self).wf(),
        ensures
            final(self).wf(),
            match popped {
                None => old(self)@.len() == 0 && final(self)@ == old(self)@,
                Some(elem) => old(self)@.len() > 0 && elem == old(self)@[0] && final(self)@ == old(self)@.skip(1),
            },
            match old(self).front_link() {
                None => *final(self) == *old(self),
                Some(gone) => {
                    &&& popped == Some(old(self).elem_at(gone))
                    &&& !final(self).holds_node(gone)
                    &&& final(self).front_link() == old(self).link_to_back(gone)
                    &&& final(self).back_link() == (if old(self).link_to_back(gone) is None {
                        None
                    } else {
                        old(self).back_link()
                    })
                    &&& forall|s: usize|
                        s != gone ==> (#[trigger] final(self).holds_node(s) <==> old(self).holds_node(s))
                    &&& forall|s: usize| #[trigger]
                        old(self).holds_node(s) && s != gone ==> {
                            &&& final(self).elem_at(s) == old(self).elem_at(s)
                            &&& final(self).link_to_back(s) == old(self).link_to_back(s)
                            &&& final(self).link_to_front(s) == (if old(self).link_to_back(gone) == Some(s) {
                                None
                            } else {
                                old(self).link_to_front(s)
                            })
                        }
                },
            },
    {
        let ghost chain0 = self.chain@;
        let ghost slots0 = self.slots@;
        let ghost free0 = self.free@;
        match self.front {
            None => None,
            Some(at) => {
                assert(linked(slots0, chain0, 0));
                match self.slots[at].take() {
                    None => None,
                    Some(node) => {
                        self.free.push(at);
                        self.front = node.back;
                        match self.front {
                            Some(new_front) => {
                                assert(linked(slots0, chain0, 1));
                                set_front(&mut self.slots, new_front, None);
                            },
                            None => {
                                self.back = None;
                            },
                        }
                        self.len -= 1;
                        proof {
                            self.chain@ = chain0.skip(1);
                            lemma_popped(slots0, self.slots@, chain0, free0);
                            assert forall|k: int| 0 <= k < self.chain@.len() implies self.slots@[self.chain@[k] as int]->0.elem
                                == slots0[chain0[k + 1] as int]->0.elem by {
                                assert(linked(slots0, chain0, k + 1));
                                assert(chain0[k + 1] != chain0[0]);
                            }
                            assert(final(self)@ =~= old(self)@.skip(1));
                        }
                        Some(node.elem)
                    },
                }
            },
        }
    }

    /// The number of elements.
    pub fn len(&self) -> (count: usize)
        requires
            self.wf(),
        ensures
            count == self@.len(),
    {
        self.len
    }
}

} // verus!
