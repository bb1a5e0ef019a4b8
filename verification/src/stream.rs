//! The stream of primitive Pythagorean triples in ascending order.

use vstd::prelude::*;
use vstd::multiset::Multiset;
use crate::frontier::{
    expanded, is_frontier, lemma_earliest_pending, lemma_frontier_advances,
    lemma_frontier_unique, lemma_initial_frontier, stored,
};
use crate::heap::TripleHeap;
use crate::sequence::{lemma_nth_triple, nth_triple};
use crate::tree::lemma_key_determines;
use crate::triple::{
    child, expandable, ints, is_expandable, is_primitive_triple, key_le, make_child,
};

verus! {

/// What the call after `n` triples have been produced returns: the `n`-th
/// member of the sequence, or nothing where its children no longer fit the
/// machine integers.
pub open spec fn next_result(n: nat) -> Option<(i64, i64, i64)> {
    if expandable(nth_triple(n)) {
        Some(stored(nth_triple(n)))
    } else {
        None
    }
}

/// A triple that is returned is the member of the sequence at its place:
/// a primitive Pythagorean triple, held without loss.
pub proof fn lemma_result(n: nat, t: (i64, i64, i64))
    requires
        next_result(n) == Some(t),
    ensures
        ints(t) == nth_triple(n),
        is_primitive_triple(ints(t)),
        0 < t.0 < t.1 < t.2,
        t.0 * t.0 + t.1 * t.1 == t.2 * t.2,
{
    lemma_nth_triple(n);
}

/// Of two triples returned one after the other, the first comes strictly
/// before the second: its hypotenuse is smaller, or equal with a smaller
/// first leg.
pub proof fn lemma_results_ascend(n: nat, s: (i64, i64, i64), t: (i64, i64, i64))
    requires
        next_result(n) == Some(s),
        next_result(n + 1) == Some(t),
    ensures
        s.2 < t.2 || (s.2 == t.2 && s.0 < t.0),
{
    lemma_result(n, s);
    lemma_result(n + 1, t);
    lemma_nth_triple(n + 1);
}

/// The stream of primitive Pythagorean triples in ascending order.
pub struct PythagoreanTripleIter {
    min_heap: TripleHeap,
    produced: Ghost<nat>,
}

impl PythagoreanTripleIter {
    /// The number of triples produced so far.
    pub closed spec fn produced(&self) -> nat {
        self.produced@
    }

    /// The triples that wait in the queue.
    pub closed spec fn pending(&self) -> Multiset<(i64, i64, i64)> {
        self.min_heap@
    }

    /// The queue is in order and holds what is pending after the triples
    /// produced so far.
    pub closed spec fn wf(&self) -> bool {
        self.min_heap.wf() && is_frontier(self.min_heap@, self.produced@)
    }

    /// Produces the next primitive Pythagorean triple in ascending order,
    /// and puts its three children into the queue.
    ///
    /// Nothing is produced, and the stream stays as it is, once the children
    /// of the next triple no longer fit 64-bit signed integers.
    pub fn next(&mut self) -> (r: Option<(i64, i64, i64)>)
        requires
            old(self).wf(),
        ensures
            final(self).wf(),
            r == next_result(old(self).produced()),
            match r {
                Some(t) => {
                    &&& final(self).produced() == old(self).produced() + 1
                    &&& final(self).pending() == expanded(old(self).pending(), t)
                    &&& final(self).pending().len() == old(self).pending().len() + 2
                },
                None => {
                    &&& final(self).produced() == old(self).produced()
                    &&& final(self).pending() == old(self).pending()
                },
            },
    {
        let ghost q = self.min_heap@;
        let ghost n = self.produced@;
        let m = match self.min_heap.peek() {
            Some(m) => m,
            None => {
                // The queue holds 2n + 1 triples: it is never empty.
                assert(false);
                return None;
            },
        };
        proof {
            lemma_earliest_pending(q, n, m);
        }
        if !is_expandable(m) {
            return None;
        }
        let popped = self.min_heap.pop();
        proof {
            let e = popped.unwrap();
            assert(key_le(ints(e), ints(m)) && key_le(ints(m), ints(e)));
            lemma_key_determines(ints(e), ints(m));
            assert(e == m);
            lemma_frontier_advances(q, n, m);
        }
        let c0 = make_child(0, m);
        let c1 = make_child(1, m);
        let c2 = make_child(2, m);
        self.min_heap.push(c0);
        self.min_heap.push(c1);
        self.min_heap.push(c2);
        self.produced = Ghost((n + 1) as nat);
        assert(c0 == stored(child(0, ints(m))));
        assert(c1 == stored(child(1, ints(m))));
        assert(c2 == stored(child(2, ints(m))));
        Some(m)
    }
}

/// A well-formed stream holds in its queue the frontier for the number of
/// triples it has produced; the queue is never empty.
pub proof fn lemma_pending_is_frontier(s: PythagoreanTripleIter)
    requires
        s.wf(),
    ensures
        is_frontier(s.pending(), s.produced()),
        s.pending().len() == 2 * s.produced() + 1,
{
}

/// Two streams that have produced the same number of triples hold the same
/// pending triples and produce the same triple next.
pub proof fn lemma_deterministic(s: PythagoreanTripleIter, t: PythagoreanTripleIter)
    requires
        s.wf(),
        t.wf(),
        s.produced() == t.produced(),
    ensures
        s.pending() == t.pending(),
        next_result(s.produced()) == next_result(t.produced()),
{
    lemma_frontier_unique(s.pending(), t.pending(), s.produced());
}

/// Produces all primitive Pythagorean triples in sorted order.
/// That is all coprime triples (a < b < c) such that a^2 + b^2 = c^2,
/// ordered by increasing c, then a.
///
/// The stream starts with (3, 4, 5) alone in its queue.
pub fn pythagorean_triples() -> (s: PythagoreanTripleIter)
    ensures
        s.wf(),
        s.produced() == 0,
        s.pending() == Multiset::singleton((3i64, 4i64, 5i64)),
{
    let mut min_heap = TripleHeap::new();
    min_heap.push((3, 4, 5));
    proof {
        lemma_initial_frontier();
        assert(min_heap@ =~= Multiset::singleton((3i64, 4i64, 5i64)));
    }
    PythagoreanTripleIter { min_heap, produced: Ghost(0) }
}

} // verus!
