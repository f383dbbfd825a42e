//! The order in which a stack gives back what was pushed onto it, stated
//! over the sequences that model the stacks of this crate: a push puts its
//! element in front of the sequence, a pop takes the first element off.

use vstd::prelude::*;

verus! {

/// The contents of a stack that held `s` after the elements of `xs` were
/// pushed onto it, the first of them first.
pub open spec fn pushed_all<T>(s: Seq<T>, xs: Seq<T>) -> Seq<T>
    decreases xs.len(),
{
    if xs.len() == 0 {
        s
    } else {
        pushed_all(seq![xs[0]] + s, xs.skip(1))
    }
}

/// The elements that `n` pops in a row return from a stack that holds `s`,
/// in the order in which they are returned. A pop from an empty stack
/// returns none.
pub open spec fn popped<T>(s: Seq<T>, n: nat) -> Seq<T>
    decreases n,
{
    if n == 0 || s.len() == 0 {
        Seq::empty()
    } else {
        seq![s[0]] + popped(s.skip(1), (n - 1) as nat)
    }
}

/// The contents of a stack that held `s` after `n` pops in a row.
pub open spec fn left_after<T>(s: Seq<T>, n: nat) -> Seq<T>
    decreases n,
{
    if n == 0 || s.len() == 0 {
        s
    } else {
        left_after(s.skip(1), (n - 1) as nat)
    }
}

/// Pushing the elements of `xs` puts them in front of the stack in reverse
/// order.
pub proof fn lemma_pushed_all<T>(s: Seq<T>, xs: Seq<T>)
    ensures
        pushed_all(s, xs) == xs.reverse() + s,
    decreases xs.len(),
{
    if xs.len() == 0 {
        assert(xs.reverse() + s =~= s);
    } else {
        lemma_pushed_all(seq![xs[0]] + s, xs.skip(1));
        assert(xs.skip(1).reverse() + (seq![xs[0]] + s) =~= xs.reverse() + s);
    }
}

/// As long as the stack has enough elements, `n` pops return its first `n`
/// elements in order and leave the rest.
pub proof fn lemma_popped<T>(s: Seq<T>, n: nat)
    requires
        n <= s.len(),
    ensures
        popped(s, n) == s.take(n as int),
        left_after(s, n) == s.skip(n as int),
    decreases n,
{
    if n == 0 {
        assert(s.take(0) =~= Seq::<T>::empty());
        assert(s.skip(0) =~= s);
    } else {
        lemma_popped(s.skip(1), (n - 1) as nat);
        assert(seq![s[0]] + s.skip(1).take(n - 1) =~= s.take(n as int));
        assert(s.skip(1).skip(n - 1) =~= s.skip(n as int));
    }
}

/// Last in, first out: after the elements of `xs` were pushed onto a stack,
/// as many pops return them in the reverse of the order in which they were
/// pushed, and leave the stack as it was before.
pub proof fn lemma_last_in_first_out<T>(s: Seq<T>, xs: Seq<T>)
    ensures
        popped(pushed_all(s, xs), xs.len()) == xs.reverse(),
        left_after(pushed_all(s, xs), xs.len()) == s,
{
    lemma_pushed_all(s, xs);
    lemma_popped(xs.reverse() + s, xs.len());
    assert((xs.reverse() + s).take(xs.len() as int) =~= xs.reverse());
    assert((xs.reverse() + s).skip(xs.len() as int) =~= s);
}

} // verus!
