//! A priority queue of triples that hands out the earliest one first.

use vstd::prelude::*;
use vstd::multiset::Multiset;
use vstd::seq_lib::{to_multiset_build, to_multiset_contains, to_multiset_len, to_multiset_remove, to_multiset_update};
use crate::triple::{comes_before, ints, key_le};

verus! {

/// Each entry but the first comes no earlier than the entry at half its
/// place: the entries form a binary tree in which no child precedes its
/// parent.
pub open spec fn heap_ordered(s: Seq<(i64, i64, i64)>) -> bool {
    forall|k: int| 0 < k < s.len() ==> key_le(ints(s[(k - 1) / 2]), ints(#[trigger] s[k]))
}

/// As `heap_ordered`, but the entry at `i` may precede its parent. Its
/// children do not precede its parent.
spec fn ordered_but_above(s: Seq<(i64, i64, i64)>, i: int) -> bool {
    &&& forall|k: int|
        0 < k < s.len() && k != i ==> key_le(ints(s[(k - 1) / 2]), ints(#[trigger] s[k]))
    &&& forall|k: int|
        0 < i && 0 < k < s.len() && (k - 1) / 2 == i ==> key_le(
            ints(s[(i - 1) / 2]),
            ints(#[trigger] s[k]),
        )
}

/// As `heap_ordered`, but the children of the entry at `i` may precede it.
/// They do not precede its parent.
spec fn ordered_but_below(s: Seq<(i64, i64, i64)>, i: int) -> bool {
    &&& forall|k: int|
        0 < k < s.len() && (k - 1) / 2 != i ==> key_le(ints(s[(k - 1) / 2]), ints(#[trigger] s[k]))
    &&& forall|k: int|
        0 < i && 0 < k < s.len() && (k - 1) / 2 == i ==> key_le(
            ints(s[(i - 1) / 2]),
            ints(#[trigger] s[k]),
        )
}

/// `m` comes no later than any member of `q`.
pub open spec fn is_least(m: (i64, i64, i64), q: Multiset<(i64, i64, i64)>) -> bool {
    forall|t: (i64, i64, i64)| #[trigger] q.contains(t) ==> key_le(ints(m), ints(t))
}

/// In a heap-ordered sequence no entry precedes the first.
proof fn lemma_first_is_least(s: Seq<(i64, i64, i64)>, k: int)
    requires
        heap_ordered(s),
        0 <= k < s.len(),
    ensures
        key_le(ints(s[0]), ints(s[k])),
    decreases k,
{
    if k > 0 {
        lemma_first_is_least(s, (k - 1) / 2);
        assert(key_le(ints(s[(k - 1) / 2]), ints(s[k])));
    }
}

/// Exchanging two entries of a sequence leaves its members as they are.
proof fn lemma_exchange(s: Seq<(i64, i64, i64)>, i: int, j: int)
    requires
        0 <= i < s.len(),
        0 <= j < s.len(),
        i != j,
    ensures
        s.update(i, s[j]).update(j, s[i]).to_multiset() == s.to_multiset(),
{
    let s1 = s.update(i, s[j]);
    to_multiset_update(s, i, s[j]);
    to_multiset_update(s1, j, s[i]);
    to_multiset_contains(s, s[i]);
    to_multiset_contains(s, s[j]);
    assert(s.contains(s[i]) && s.contains(s[j]));
    assert(s1.update(j, s[i]).to_multiset() =~= s.to_multiset());
}

/// A priority queue of triples, ordered by hypotenuse and then by first leg.
pub struct TripleHeap {
    entries: Vec<(i64, i64, i64)>,
}

impl View for TripleHeap {
    type V = Multiset<(i64, i64, i64)>;

    /// The triples in the queue, each as often as it was put in and not yet
    /// taken out.
    closed spec fn view(&self) -> Multiset<(i64, i64, i64)> {
        self.entries@.to_multiset()
    }
}

impl TripleHeap {
    /// The entries are in heap order.
    pub closed spec fn wf(&self) -> bool {
        heap_ordered(self.entries@)
    }

    /// An empty queue.
    pub fn new() -> (h: Self)
        ensures
            h.wf(),
            h@ == Multiset::<(i64, i64, i64)>::empty(),
    {
        let h = TripleHeap { entries: Vec::new() };
        assert(h.entries@.to_multiset() =~= Multiset::<(i64, i64, i64)>::empty()) by {
            to_multiset_len(h.entries@);
        }
        h
    }

    /// The number of triples in the queue.
    pub fn len(&self) -> (n: usize)
        ensures
            n == self@.len(),
    {
        proof {
            to_multiset_len(self.entries@);
        }
        self.entries.len()
    }

    /// Whether the queue holds no triple.
    pub fn is_empty(&self) -> (r: bool)
        ensures
            r == (self@.len() == 0),
    {
        proof {
            to_multiset_len(self.entries@);
        }
        self.entries.len() == 0
    }

    /// The earliest triple in the queue, which stays there.
    pub fn peek(&self) -> (r: Option<(i64, i64, i64)>)
        requires
            self.wf(),
        ensures
            match r {
                Some(m) => self@.contains(m) && is_least(m, self@),
                None => self@.len() == 0,
            },
    {
        proof {
            to_multiset_len(self.entries@);
        }
        if self.entries.len() == 0 {
            None
        } else {
            let m = self.entries[0];
            proof {
                self.lemma_first_entry();
            }
            Some(m)
        }
    }

    /// The first entry of a heap-ordered queue is a member that no member
    /// precedes.
    proof fn lemma_first_entry(&self)
        requires
            self.wf(),
            self.entries@.len() > 0,
        ensures
            self@.contains(self.entries@[0]),
            is_least(self.entries@[0], self@),
    {
        let s = self.entries@;
        to_multiset_contains(s, s[0]);
        assert(s.contains(s[0]));
        assert forall|t: (i64, i64, i64)| #[trigger] self@.contains(t) implies key_le(
            ints(s[0]),
            ints(t),
        ) by {
            to_multiset_contains(s, t);
            let k = choose|k: int| 0 <= k < s.len() && s[k] == t;
            lemma_first_is_least(s, k);
        }
    }

    /// Puts `t` into the queue.
    pub fn push(&mut self, t: (i64, i64, i64))
        requires
            old(self).wf(),
        ensures
            final(self).wf(),
            final(self)@ == old(self)@.insert(t),
    {
        proof {
            to_multiset_build(self.entries@, t);
        }
        self.entries.push(t);
        let last: usize = self.entries.len() - 1;
        self.sift_up(last);
    }

    /// Takes the earliest triple out of the queue.
    pub fn pop(&mut self) -> (r: Option<(i64, i64, i64)>)
        requires
            old(self).wf(),
        ensures
            final(self).wf(),
            match r {
                Some(m) => old(self)@.contains(m) && is_least(m, old(self)@) && final(self)@ == old(
                    self,
                )@.remove(m),
                None => old(self)@.len() == 0 && final(self)@ == old(self)@,
            },
    {
        proof {
            to_multiset_len(self.entries@);
        }
        let n: usize = self.entries.len();
        if n == 0 {
            return None;
        }
        let ghost before = self.entries@;
        proof {
            self.lemma_first_entry();
        }
        let m = self.entries[0];
        let e = self.entries[n - 1];
        self.entries.pop();
        let ghost shorter = self.entries@;
        proof {
            assert(shorter =~= before.remove(n - 1));
            to_multiset_remove(before, n - 1);
            to_multiset_contains(before, e);
            assert(before.contains(e));
        }
        if n > 1 {
            self.entries[0] = e;
            proof {
                to_multiset_update(shorter, 0, e);
                assert(self.entries@.to_multiset() =~= before.to_multiset().remove(m));
                assert(ordered_but_below(self.entries@, 0)) by {
                    assert forall|k: int|
                        0 < k < self.entries@.len() && (k - 1) / 2 != 0 implies key_le(
                        ints(self.entries@[(k - 1) / 2]),
                        ints(#[trigger] self.entries@[k]),
                    ) by {
                        assert(key_le(ints(before[(k - 1) / 2]), ints(before[k])));
                    }
                }
            }
            self.sift_down();
        }
        Some(m)
    }

    /// Moves the entry at `start` towards the front until its parent does
    /// not come after it.
    fn sift_up(&mut self, start: usize)
        requires
            start < old(self).entries@.len(),
            ordered_but_above(old(self).entries@, start as int),
        ensures
            heap_ordered(final(self).entries@),
            final(self).entries@.to_multiset() == old(self).entries@.to_multiset(),
    {
        let mut i: usize = start;
        while i > 0 && comes_before(self.entries[i], self.entries[(i - 1) / 2])
            invariant
                i < self.entries@.len(),
                ordered_but_above(self.entries@, i as int),
                self.entries@.to_multiset() == old(self).entries@.to_multiset(),
            decreases i,
        {
            let p: usize = (i - 1) / 2;
            let a = self.entries[i];
            let b = self.entries[p];
            let ghost s = self.entries@;
            self.entries[i] = b;
            self.entries[p] = a;
            proof {
                lemma_exchange(s, i as int, p as int);
                let s2 = self.entries@;
                assert(s2 =~= s.update(i as int, s[p as int]).update(p as int, s[i as int]));
                assert forall|k: int| 0 < k < s2.len() && k != p implies key_le(
                    ints(s2[(k - 1) / 2]),
                    ints(#[trigger] s2[k]),
                ) by {
                    if k == i {
                    } else if (k - 1) / 2 == i {
                        assert(key_le(ints(s[(i - 1) / 2]), ints(s[k])));
                    } else {
                        assert(key_le(ints(s[(k - 1) / 2]), ints(s[k])));
                    }
                }
                assert forall|k: int|
                    0 < p && 0 < k < s2.len() && (k - 1) / 2 == p implies key_le(
                    ints(s2[(p - 1) / 2]),
                    ints(#[trigger] s2[k]),
                ) by {
                    assert(key_le(ints(s[(p - 1) / 2]), ints(s[p as int])));
                    if k != i {
                        assert(key_le(ints(s[(k - 1) / 2]), ints(s[k])));
                    }
                }
            }
            i = p;
        }
    }

    /// Moves the first entry towards the back until neither child comes
    /// before it.
    fn sift_down(&mut self)
        requires
            old(self).entries@.len() > 0,
            ordered_but_below(old(self).entries@, 0),
        ensures
            heap_ordered(final(self).entries@),
            final(self).entries@.to_multiset() == old(self).entries@.to_multiset(),
    {
        let n: usize = self.entries.len();
        let mut i: usize = 0;
        while i < n / 2
            invariant
                n == self.entries@.len(),
                i < n,
                ordered_but_below(self.entries@, i as int),
                self.entries@.to_multiset() == old(self).entries@.to_multiset(),
            ensures
                heap_ordered(self.entries@),
                self.entries@.to_multiset() == old(self).entries@.to_multiset(),
            decreases n - i,
        {
            let left: usize = 2 * i + 1;
            let right: usize = left + 1;
            let mut c: usize = left;
            if right < n && comes_before(self.entries[right], self.entries[left]) {
                c = right;
            }
            let a = self.entries[i];
            let b = self.entries[c];
            let ghost s = self.entries@;
            if !comes_before(b, a) {
                proof {
                    assert forall|k: int| 0 < k < s.len() implies key_le(
                        ints(s[(k - 1) / 2]),
                        ints(#[trigger] s[k]),
                    ) by {
                        if (k - 1) / 2 == i {
                            assert(k == left || k == right);
                        }
                    }
                }
                break;
            }
            self.entries[i] = b;
            self.entries[c] = a;
            proof {
                lemma_exchange(s, i as int, c as int);
                let s2 = self.entries@;
                assert(s2 =~= s.update(i as int, s[c as int]).update(c as int, s[i as int]));
                assert forall|k: int|
                    0 < k < s2.len() && (k - 1) / 2 != c implies key_le(
                    ints(s2[(k - 1) / 2]),
                    ints(#[trigger] s2[k]),
                ) by {
                    if k == i {
                        assert(key_le(ints(s[(i - 1) / 2]), ints(s[c as int])));
                    } else if (k - 1) / 2 == i {
                        assert(k == left || k == right);
                    } else {
                        assert(key_le(ints(s[(k - 1) / 2]), ints(s[k])));
                    }
                }
                assert forall|k: int|
                    0 < c && 0 < k < s2.len() && (k - 1) / 2 == c implies key_le(
                    ints(s2[(c - 1) / 2]),
                    ints(#[trigger] s2[k]),
                ) by {
                    assert(key_le(ints(s[(k - 1) / 2]), ints(s[k])));
                }
            }
            i = c;
        }
    }
}

} // verus!
