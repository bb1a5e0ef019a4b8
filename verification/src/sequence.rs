//! The ascending sequence of all primitive Pythagorean triples, stated
//! without reference to how it is computed, and what holds of it.

use vstd::prelude::*;
use vstd::arithmetic::div_mod::{lemma_fundamental_div_mod, lemma_small_mod};
use crate::triple::{common_divisor, is_primitive_triple, key_le, key_lt, root};
use crate::tree::{lemma_key_determines, lemma_root_least};

verus! {

/// `t` is the first primitive Pythagorean triple after `s` in the order by
/// hypotenuse, then first leg.
pub open spec fn is_successor(s: (int, int, int), t: (int, int, int)) -> bool {
    &&& is_primitive_triple(t)
    &&& key_lt(s, t)
    &&& forall|u: (int, int, int)| #[trigger] is_primitive_triple(u) && key_lt(s, u) ==> key_le(t, u)
}

/// The first primitive Pythagorean triple after `s`.
pub open spec fn successor(s: (int, int, int)) -> (int, int, int) {
    choose|t: (int, int, int)| is_successor(s, t)
}

/// The `n`-th primitive Pythagorean triple in ascending order, counted from 0.
pub open spec fn nth_triple(n: nat) -> (int, int, int)
    decreases n,
{
    if n == 0 {
        root()
    } else {
        successor(nth_triple((n - 1) as nat))
    }
}

/// The root is a primitive Pythagorean triple.
pub proof fn lemma_root_is_primitive_triple()
    ensures
        is_primitive_triple(root()),
{
    assert forall|d: int| #[trigger] common_divisor(d, root()) implies d == 1 by {
        if d > 1 {
            assert(4int % d == 0 && 3int % d == 0);
            if d > 4 {
                lemma_small_mod(4, d as nat);
            } else if d == 4 {
                assert(3int % 4 == 3);
            } else if d == 3 {
                assert(4int % 3 == 1);
            } else {
                assert(3int % 2 == 1);
            }
        }
    }
}

/// With legs `2k + 1` and `2k² + 2k` there is a primitive Pythagorean triple
/// for each positive `k`, so there is one beyond any given hypotenuse.
proof fn lemma_triple_beyond(k: int) -> (t: (int, int, int))
    requires
        k >= 1,
    ensures
        is_primitive_triple(t),
        t.2 > k,
{
    let a: int = 2 * k + 1;
    let b: int = 2 * k * k + 2 * k;
    let c: int = b + 1;
    let t = (a, b, c);
    assert(a < b && k < c && a * a + b * b == c * c) by (nonlinear_arith)
        requires
            k >= 1,
            a == 2 * k + 1,
            b == 2 * k * k + 2 * k,
            c == b + 1,
    {
        assert(k * k >= 1);
        assert(2 * b + 1 == a * a);
    }
    assert forall|d: int| #[trigger] common_divisor(d, t) implies d == 1 by {
        if d > 1 {
            lemma_fundamental_div_mod(b, d);
            lemma_fundamental_div_mod(c, d);
            let p: int = b / d;
            let q: int = c / d;
            assert(d * (q - p) == 1) by (nonlinear_arith)
                requires
                    b == d * p,
                    c == d * q,
                    c == b + 1,
            ;
            assert(false) by (nonlinear_arith)
                requires
                    d > 1,
                    d * (q - p) == 1,
            ;
        }
    }
    t
}

/// Below any primitive Pythagorean triple after `s` there is a first one.
proof fn lemma_first_after(s: (int, int, int), w: (int, int, int))
    requires
        is_primitive_triple(w),
        key_lt(s, w),
    ensures
        exists|t: (int, int, int)| is_successor(s, t),
    decreases w.2, w.0,
{
    if exists|u: (int, int, int)| #[trigger] is_primitive_triple(u) && key_lt(s, u) && !key_le(w, u) {
        let u = choose|u: (int, int, int)| #[trigger]
            is_primitive_triple(u) && key_lt(s, u) && !key_le(w, u);
        lemma_first_after(s, u);
    } else {
        assert(is_successor(s, w));
    }
}

/// Every triple of integers has a successor.
pub proof fn lemma_successor(s: (int, int, int))
    ensures
        is_successor(s, successor(s)),
{
    let k: int = if s.2 >= 1 {
        s.2
    } else {
        1
    };
    let w = lemma_triple_beyond(k);
    lemma_first_after(s, w);
}

/// There is one successor only.
pub proof fn lemma_successor_unique(s: (int, int, int), t: (int, int, int))
    requires
        is_successor(s, t),
    ensures
        t == successor(s),
{
    lemma_successor(s);
    let u = successor(s);
    assert(key_le(t, u) && key_le(u, t));
    lemma_key_determines(t, u);
}

/// Each member of the sequence is a primitive Pythagorean triple, and each
/// but the first is the successor of the one before.
pub proof fn lemma_nth_triple(n: nat)
    ensures
        is_primitive_triple(nth_triple(n)),
        n > 0 ==> is_successor(nth_triple((n - 1) as nat), nth_triple(n)),
{
    if n == 0 {
        lemma_root_is_primitive_triple();
    } else {
        lemma_successor(nth_triple((n - 1) as nat));
    }
}

/// Every member of the sequence has legs in ascending order below the
/// hypotenuse, satisfies the Pythagorean equation, and has 1 as the greatest
/// common divisor of its components.
pub proof fn lemma_members_are_primitive_triples(n: nat)
    ensures
        ({
            let t = nth_triple(n);
            &&& 0 < t.0 < t.1 < t.2
            &&& t.0 * t.0 + t.1 * t.1 == t.2 * t.2
            &&& forall|d: int| #[trigger] common_divisor(d, t) ==> d == 1
        }),
{
    lemma_nth_triple(n);
}

/// The sequence ascends strictly from each member to the next.
pub proof fn lemma_strictly_ascending(n: nat)
    ensures
        key_lt(nth_triple(n), nth_triple(n + 1)),
{
    lemma_nth_triple(n + 1);
}

/// The sequence ascends strictly: an earlier member comes before a later one.
pub proof fn lemma_ascending(i: nat, j: nat)
    requires
        i < j,
    ensures
        key_lt(nth_triple(i), nth_triple(j)),
    decreases j,
{
    lemma_strictly_ascending((j - 1) as nat);
    if i + 1 < j {
        lemma_ascending(i, (j - 1) as nat);
    }
}

/// No triple occurs twice in the sequence.
pub proof fn lemma_no_duplicates(i: nat, j: nat)
    requires
        nth_triple(i) == nth_triple(j),
    ensures
        i == j,
{
    if i < j {
        lemma_ascending(i, j);
    } else if j < i {
        lemma_ascending(j, i);
    }
}

/// A primitive Pythagorean triple that comes no later than the `n`-th member
/// is among the members up to the `n`-th.
pub proof fn lemma_complete_prefix(t: (int, int, int), n: nat) -> (i: nat)
    requires
        is_primitive_triple(t),
        key_le(t, nth_triple(n)),
    ensures
        i <= n,
        nth_triple(i) == t,
    decreases n,
{
    lemma_nth_triple(n);
    if n > 0 && key_le(t, nth_triple((n - 1) as nat)) {
        lemma_complete_prefix(t, (n - 1) as nat)
    } else {
        if n == 0 {
            lemma_root_least(t);
        }
        lemma_key_determines(t, nth_triple(n));
        n
    }
}

/// By the time a member with a hypotenuse beyond `bound` is reached, every
/// primitive Pythagorean triple with a hypotenuse up to `bound` has occurred,
/// once.
pub proof fn lemma_complete_up_to(t: (int, int, int), bound: int, n: nat) -> (i: nat)
    requires
        is_primitive_triple(t),
        t.2 <= bound,
        nth_triple(n).2 > bound,
    ensures
        i < n,
        nth_triple(i) == t,
        forall|j: nat| nth_triple(j) == t ==> j == i,
{
    let i = lemma_complete_prefix(t, n);
    assert forall|j: nat| nth_triple(j) == t implies j == i by {
        lemma_no_duplicates(j, i);
    }
    i
}

/// The place of a key among the keys with hypotenuse up to `bound`.
spec fn rank(t: (int, int, int), bound: int) -> int {
    t.2 * (bound + 1) + t.0
}

/// A member of the sequence that comes before `t` has at least as many
/// keys below it as members before it.
proof fn lemma_rank_grows(t: (int, int, int), n: nat)
    requires
        is_primitive_triple(t),
        key_lt(nth_triple(n), t),
    ensures
        n <= rank(nth_triple(n), t.2),
    decreases n,
{
    lemma_nth_triple(n);
    let v = nth_triple(n);
    if n == 0 {
        assert(rank(v, t.2) >= 0) by (nonlinear_arith)
            requires
                v.2 > 0,
                v.0 > 0,
                t.2 > 0,
                rank(v, t.2) == v.2 * (t.2 + 1) + v.0,
        ;
    } else {
        let u = nth_triple((n - 1) as nat);
        lemma_nth_triple((n - 1) as nat);
        lemma_rank_grows(t, (n - 1) as nat);
        assert(rank(u, t.2) < rank(v, t.2)) by (nonlinear_arith)
            requires
                key_lt(u, v),
                0 < u.0 < u.2,
                0 < v.0 < v.2,
                v.2 <= t.2,
                rank(u, t.2) == u.2 * (t.2 + 1) + u.0,
                rank(v, t.2) == v.2 * (t.2 + 1) + v.0,
        {
            if u.2 < v.2 {
                assert((v.2 - u.2) * (t.2 + 1) >= t.2 + 1);
            }
        }
    }
}

/// Every primitive Pythagorean triple is a member of the sequence, at one
/// place only.
pub proof fn lemma_every_triple_occurs(t: (int, int, int)) -> (n: nat)
    requires
        is_primitive_triple(t),
    ensures
        nth_triple(n) == t,
        forall|m: nat| nth_triple(m) == t ==> m == n,
{
    let bound: nat = (t.2 * (t.2 + 1) + t.2 + 1) as nat;
    assert(t.2 * (t.2 + 1) + t.2 + 1 >= 0) by (nonlinear_arith)
        requires
            t.2 > 0,
    ;
    if key_lt(nth_triple(bound), t) {
        lemma_rank_grows(t, bound);
        lemma_nth_triple(bound);
        let v = nth_triple(bound);
        assert(rank(v, t.2) < bound) by (nonlinear_arith)
            requires
                0 < v.0 < v.2,
                v.2 <= t.2,
                rank(v, t.2) == v.2 * (t.2 + 1) + v.0,
                bound == t.2 * (t.2 + 1) + t.2 + 1,
        {
            assert(v.2 * (t.2 + 1) <= t.2 * (t.2 + 1));
        }
    }
    let n = lemma_complete_prefix(t, bound);
    assert forall|m: nat| nth_triple(m) == t implies m == n by {
        lemma_no_duplicates(m, n);
    }
    n
}

} // verus!
