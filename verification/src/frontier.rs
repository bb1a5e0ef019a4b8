//! What waits to be produced: the frontier of the tree after the first
//! members of the sequence have been taken from it.

use vstd::prelude::*;
use vstd::multiset::Multiset;
use crate::heap::is_least;
use crate::sequence::{
    is_successor, lemma_nth_triple, lemma_root_is_primitive_triple, lemma_successor_unique,
    nth_triple,
};
use crate::tree::{
    descends, lemma_child, lemma_child_descends, lemma_descends_from_root, lemma_descends_key,
    lemma_descends_through_child, lemma_descends_transitive, lemma_key_determines,
    lemma_root_least, parent,
};
use crate::triple::{child, expandable, ints, is_primitive_triple, key_le, key_lt, root};

verus! {

/// The machine triple with the value `t`, where `t` fits.
pub open spec fn stored(t: (int, int, int)) -> (i64, i64, i64) {
    (t.0 as i64, t.1 as i64, t.2 as i64)
}

/// `u` comes after the first `n` members of the sequence.
pub open spec fn after_produced(n: nat, u: (int, int, int)) -> bool {
    n == 0 || key_lt(nth_triple((n - 1) as nat), u)
}

/// `q` is what is pending once the first `n` members of the sequence have
/// been produced: `2n + 1` distinct primitive Pythagorean triples that come
/// after those members, none of which descends from another, and from which
/// every primitive Pythagorean triple that comes after those members
/// descends.
pub open spec fn is_frontier(q: Multiset<(i64, i64, i64)>, n: nat) -> bool {
    &&& q.len() == 2 * n + 1
    &&& forall|p: (i64, i64, i64)| #[trigger]
        q.contains(p) ==> is_primitive_triple(ints(p)) && after_produced(n, ints(p)) && q.count(p)
            == 1
    &&& forall|p: (i64, i64, i64), r: (i64, i64, i64)|
        #![trigger q.contains(p), q.contains(r)]
        q.contains(p) && q.contains(r) && descends(ints(p), ints(r)) ==> p == r
    &&& forall|u: (int, int, int)| #[trigger]
        is_primitive_triple(u) && after_produced(n, u) ==> exists|p: (i64, i64, i64)|
            q.contains(p) && #[trigger] descends(u, ints(p))
}

/// What is pending after `m` has been produced from `q`: `q` without `m`,
/// with the three children of `m`.
pub open spec fn expanded(q: Multiset<(i64, i64, i64)>, m: (i64, i64, i64)) -> Multiset<
    (i64, i64, i64),
> {
    q.remove(m).insert(stored(child(0, ints(m)))).insert(stored(child(1, ints(m)))).insert(
        stored(child(2, ints(m))),
    )
}

/// The root alone is what is pending before anything has been produced.
pub proof fn lemma_initial_frontier()
    ensures
        is_frontier(Multiset::singleton((3i64, 4i64, 5i64)), 0),
{
    broadcast use vstd::multiset::group_multiset_axioms;

    let q = Multiset::singleton((3i64, 4i64, 5i64));
    lemma_root_is_primitive_triple();
    assert(ints((3i64, 4i64, 5i64)) == root());
    assert forall|u: (int, int, int)| #[trigger]
        is_primitive_triple(u) && after_produced(0, u) implies exists|p: (i64, i64, i64)|
        q.contains(p) && #[trigger] descends(u, ints(p)) by {
        lemma_descends_from_root(u);
        assert(q.contains((3i64, 4i64, 5i64)) && descends(u, ints((3i64, 4i64, 5i64))));
    }
}

/// The earliest pending triple is the next member of the sequence.
pub proof fn lemma_earliest_pending(q: Multiset<(i64, i64, i64)>, n: nat, m: (i64, i64, i64))
    requires
        is_frontier(q, n),
        q.contains(m),
        is_least(m, q),
    ensures
        ints(m) == nth_triple(n),
{
    let t = ints(m);
    if n == 0 {
        lemma_root_is_primitive_triple();
        assert(is_primitive_triple(root()) && after_produced(0, root()));
        let p = choose|p: (i64, i64, i64)| q.contains(p) && #[trigger] descends(root(), ints(p));
        assert(ints(p) == root());
        assert(key_le(t, root()));
        lemma_root_least(t);
        lemma_key_determines(t, root());
    } else {
        let s = nth_triple((n - 1) as nat);
        assert forall|u: (int, int, int)| #[trigger]
            is_primitive_triple(u) && key_lt(s, u) implies key_le(t, u) by {
            assert(after_produced(n, u));
            let p = choose|p: (i64, i64, i64)| q.contains(p) && #[trigger] descends(u, ints(p));
            lemma_descends_key(u, ints(p));
            assert(key_le(t, ints(p)));
        }
        assert(is_successor(s, t));
        lemma_successor_unique(s, t);
    }
}

/// The hypotenuses of the three children differ.
proof fn lemma_children_differ(t: (int, int, int))
    requires
        is_primitive_triple(t),
    ensures
        child(0, t).2 < child(2, t).2 < child(1, t).2,
{
}

/// Producing the earliest pending triple and putting its children in its
/// place gives what is pending after one more member.
pub proof fn lemma_frontier_advances(q: Multiset<(i64, i64, i64)>, n: nat, m: (i64, i64, i64))
    requires
        is_frontier(q, n),
        q.contains(m),
        is_least(m, q),
        expandable(ints(m)),
    ensures
        is_frontier(expanded(q, m), n + 1),
{
    broadcast use vstd::multiset::group_multiset_axioms;

    let t = ints(m);
    let c0 = child(0, t);
    let c1 = child(1, t);
    let c2 = child(2, t);
    let s0 = stored(c0);
    let s1 = stored(c1);
    let s2 = stored(c2);
    let q1 = expanded(q, m);
    lemma_earliest_pending(q, n, m);
    lemma_child(0, t);
    lemma_child(1, t);
    lemma_child(2, t);
    lemma_child_descends(0, t);
    lemma_child_descends(1, t);
    lemma_child_descends(2, t);
    lemma_children_differ(t);
    assert(ints(s0) == c0 && ints(s1) == c1 && ints(s2) == c2);
    assert(s0 != s1 && s1 != s2 && s0 != s2);
    assert(s0 != m && s1 != m && s2 != m);
    // No child is pending already.
    assert(!q.contains(s0) && !q.contains(s1) && !q.contains(s2));
    assert forall|x: (i64, i64, i64)| true implies #[trigger] q1.count(x) == (if x == m {
        0nat
    } else if x == s0 || x == s1 || x == s2 {
        1nat
    } else {
        q.count(x)
    }) by {}
    assert(q1.len() == 2 * (n + 1) + 1) by {
        assert(Multiset::singleton(m).subset_of(q));
    }
    assert forall|p: (i64, i64, i64)| #[trigger] q1.contains(p) implies is_primitive_triple(
        ints(p),
    ) && after_produced((n + 1) as nat, ints(p)) && q1.count(p) == 1 by {
        if p != s0 && p != s1 && p != s2 {
            assert(q.contains(p));
            assert(key_le(t, ints(p)));
            if !key_lt(t, ints(p)) {
                lemma_key_determines(t, ints(p));
            }
        }
    }
    assert forall|p: (i64, i64, i64), r: (i64, i64, i64)|
        #![trigger q1.contains(p), q1.contains(r)]
        q1.contains(p) && q1.contains(r) && descends(ints(p), ints(r)) implies p == r by {
        let p_new = p == s0 || p == s1 || p == s2;
        let r_new = r == s0 || r == s1 || r == s2;
        if p != r {
            if p_new {
                assert(parent(ints(p)) == t);
                assert(descends(t, ints(r)));
                if r_new {
                    lemma_descends_key(t, ints(r));
                } else {
                    assert(q.contains(m) && q.contains(r));
                }
            } else if r_new {
                assert(descends(ints(r), t));
                lemma_descends_transitive(ints(p), ints(r), t);
                assert(q.contains(p) && q.contains(m));
            } else {
                assert(q.contains(p) && q.contains(r));
            }
        }
    }
    assert forall|u: (int, int, int)| #[trigger]
        is_primitive_triple(u) && after_produced((n + 1) as nat, u) implies exists|
        p: (i64, i64, i64),
    |
        q1.contains(p) && #[trigger] descends(u, ints(p)) by {
        if n > 0 {
            lemma_nth_triple(n);
        }
        assert(after_produced(n, u));
        let p = choose|p: (i64, i64, i64)| q.contains(p) && #[trigger] descends(u, ints(p));
        if p == m {
            lemma_descends_through_child(u, t);
            if descends(u, c0) {
                assert(q1.contains(s0) && descends(u, ints(s0)));
            } else if descends(u, c1) {
                assert(q1.contains(s1) && descends(u, ints(s1)));
            } else {
                assert(q1.contains(s2) && descends(u, ints(s2)));
            }
        } else {
            assert(q1.contains(p) && descends(u, ints(p)));
        }
    }
}

/// What is pending is determined by the number of triples produced.
pub proof fn lemma_frontier_unique(
    a: Multiset<(i64, i64, i64)>,
    b: Multiset<(i64, i64, i64)>,
    n: nat,
)
    requires
        is_frontier(a, n),
        is_frontier(b, n),
    ensures
        a == b,
{
    assert forall|p: (i64, i64, i64)| a.count(p) == b.count(p) by {
        if a.contains(p) {
            lemma_frontier_member(a, b, n, p);
        }
        if b.contains(p) {
            lemma_frontier_member(b, a, n, p);
        }
    }
    assert(a =~= b);
}

/// A member of one frontier is a member of any other for the same number.
proof fn lemma_frontier_member(
    a: Multiset<(i64, i64, i64)>,
    b: Multiset<(i64, i64, i64)>,
    n: nat,
    p: (i64, i64, i64),
)
    requires
        is_frontier(a, n),
        is_frontier(b, n),
        a.contains(p),
    ensures
        b.contains(p),
{
    assert(is_primitive_triple(ints(p)) && after_produced(n, ints(p)));
    let r = choose|r: (i64, i64, i64)| b.contains(r) && #[trigger] descends(ints(p), ints(r));
    assert(is_primitive_triple(ints(r)) && after_produced(n, ints(r)));
    let s = choose|s: (i64, i64, i64)| a.contains(s) && #[trigger] descends(ints(r), ints(s));
    lemma_descends_transitive(ints(p), ints(r), ints(s));
    assert(p == s);
    lemma_descends_key(ints(p), ints(r));
    lemma_descends_key(ints(r), ints(p));
}

/// One step from a frontier to the next, at the earliest pending triple.
proof fn lemma_step(q: Multiset<(i64, i64, i64)>, n: nat, m: (i64, i64, i64))
    requires
        is_frontier(q, n),
        q.contains(m),
        is_least(m, q),
        expandable(ints(m)),
    ensures
        nth_triple(n) == ints(m),
        is_frontier(expanded(q, m), n + 1),
{
    lemma_earliest_pending(q, n, m);
    lemma_frontier_advances(q, n, m);
}

/// The sequence begins (3, 4, 5), (5, 12, 13), (8, 15, 17), (7, 24, 25),
/// (20, 21, 29).
pub proof fn lemma_first_members()
    ensures
        nth_triple(0) == (3int, 4int, 5int),
        nth_triple(1) == (5int, 12int, 13int),
        nth_triple(2) == (8int, 15int, 17int),
        nth_triple(3) == (7int, 24int, 25int),
        nth_triple(4) == (20int, 21int, 29int),
{
    broadcast use vstd::multiset::group_multiset_axioms;

    let m0 = (3i64, 4i64, 5i64);
    let m1 = (5i64, 12i64, 13i64);
    let m2 = (8i64, 15i64, 17i64);
    let m3 = (7i64, 24i64, 25i64);
    let m4 = (20i64, 21i64, 29i64);
    let q0 = Multiset::singleton(m0);
    lemma_initial_frontier();
    lemma_step(q0, 0, m0);
    let q1 = expanded(q0, m0);
    assert(stored(child(0, ints(m0))) == m1);
    assert(stored(child(1, ints(m0))) == m4);
    assert(stored(child(2, ints(m0))) == m2);
    assert(q1 =~= Multiset::singleton(m1).insert(m4).insert(m2));
    lemma_step(q1, 1, m1);
    let q2 = expanded(q1, m1);
    assert(stored(child(0, ints(m1))) == m3);
    assert(stored(child(1, ints(m1))) == (48i64, 55i64, 73i64));
    assert(stored(child(2, ints(m1))) == (28i64, 45i64, 53i64));
    assert(q2 =~= Multiset::singleton(m4).insert(m2).insert(m3).insert((48i64, 55i64, 73i64)).insert(
        (28i64, 45i64, 53i64),
    ));
    lemma_step(q2, 2, m2);
    let q3 = expanded(q2, m2);
    assert(stored(child(0, ints(m2))) == (12i64, 35i64, 37i64));
    assert(stored(child(1, ints(m2))) == (65i64, 72i64, 97i64));
    assert(stored(child(2, ints(m2))) == (33i64, 56i64, 65i64));
    assert(q3 =~= Multiset::singleton(m4).insert(m3).insert((48i64, 55i64, 73i64)).insert(
        (28i64, 45i64, 53i64),
    ).insert((12i64, 35i64, 37i64)).insert((65i64, 72i64, 97i64)).insert((33i64, 56i64, 65i64)));
    lemma_step(q3, 3, m3);
    let q4 = expanded(q3, m3);
    assert(q4.contains(m4));
    assert(is_least(m4, q4)) by {
        assert forall|t: (i64, i64, i64)| #[trigger] q4.contains(t) implies key_le(
            ints(m4),
            ints(t),
        ) by {
            if t != m4 {
                assert(q3.contains(t) || t == stored(child(0, ints(m3))) || t == stored(
                    child(1, ints(m3)),
                ) || t == stored(child(2, ints(m3))));
            }
        }
    }
    lemma_earliest_pending(q4, 4, m4);
}

} // verus!
