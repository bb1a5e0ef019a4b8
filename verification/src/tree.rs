//! The ternary tree of primitive Pythagorean triples.
//!
//! Every primitive Pythagorean triple other than `(3, 4, 5)` is the child of
//! exactly one other such triple, its parent, whose hypotenuse is smaller.

use vstd::prelude::*;
use vstd::arithmetic::div_mod::{lemma_fundamental_div_mod, lemma_mod_multiples_basic};
use crate::triple::{
    child, common_divisor, is_primitive_triple, is_pythagorean, key_le, root, sorted_legs,
    transform,
};

verus! {

/// The absolute value of `x`.
pub open spec fn magnitude(x: int) -> int {
    if x < 0 {
        -x
    } else {
        x
    }
}

/// The product of the inverse of the all-positive matrix with `t`.
pub open spec fn untransform(t: (int, int, int)) -> (int, int, int) {
    (t.0 + 2 * t.1 - 2 * t.2, 2 * t.0 + t.1 - 2 * t.2, 3 * t.2 - 2 * t.0 - 2 * t.1)
}

/// The triple whose child `t` is, where `t` is a primitive Pythagorean
/// triple other than the root.
pub open spec fn parent(t: (int, int, int)) -> (int, int, int) {
    let u = untransform(t);
    sorted_legs((magnitude(u.0), magnitude(u.1), u.2))
}

/// The number of the branch that leads from the parent of `t` to `t`.
pub open spec fn branch(t: (int, int, int)) -> int {
    let u = untransform(t);
    if u.1 > 0 {
        1
    } else if u.0 < -u.1 {
        0
    } else {
        2
    }
}

/// A divisor of `x` divides every multiple of `x`.
proof fn lemma_divides_multiple(d: int, x: int, a: int)
    requires
        d > 0,
        x % d == 0,
    ensures
        (a * x) % d == 0,
{
    lemma_fundamental_div_mod(x, d);
    let q: int = x / d;
    assert(a * x == (a * q) * d) by (nonlinear_arith)
        requires
            x == d * q,
    ;
    lemma_mod_multiples_basic(a * q, d);
}

/// A divisor of two numbers divides their sum.
proof fn lemma_divides_sum(d: int, x: int, y: int)
    requires
        d > 0,
        x % d == 0,
        y % d == 0,
    ensures
        (x + y) % d == 0,
{
    lemma_fundamental_div_mod(x, d);
    lemma_fundamental_div_mod(y, d);
    let p: int = x / d;
    let q: int = y / d;
    assert(x + y == (p + q) * d) by (nonlinear_arith)
        requires
            x == d * p,
            y == d * q,
    ;
    lemma_mod_multiples_basic(p + q, d);
}

/// A divisor of three numbers divides every combination of them with
/// integer coefficients.
proof fn lemma_divides_combination(d: int, x: int, y: int, z: int, a: int, b: int, c: int)
    requires
        d > 0,
        x % d == 0,
        y % d == 0,
        z % d == 0,
    ensures
        (a * x + b * y + c * z) % d == 0,
{
    lemma_divides_multiple(d, x, a);
    lemma_divides_multiple(d, y, b);
    lemma_divides_multiple(d, z, c);
    lemma_divides_sum(d, a * x, b * y);
    lemma_divides_sum(d, a * x + b * y, c * z);
}

/// A common divisor of `t` divides the inverse image of `t`, and the parent.
proof fn lemma_common_divisor_untransform(d: int, t: (int, int, int))
    requires
        common_divisor(d, t),
    ensures
        common_divisor(d, untransform(t)),
        common_divisor(d, parent(t)),
{
    lemma_divides_combination(d, t.0, t.1, t.2, 1, 2, -2);
    lemma_divides_combination(d, t.0, t.1, t.2, 2, 1, -2);
    lemma_divides_combination(d, t.0, t.1, t.2, -2, -2, 3);
    let u = untransform(t);
    assert(u.0 == 1 * t.0 + 2 * t.1 + (-2) * t.2);
    assert(u.1 == 2 * t.0 + 1 * t.1 + (-2) * t.2);
    assert(u.2 == (-2) * t.0 + (-2) * t.1 + 3 * t.2);
    lemma_divides_multiple(d, u.0, -1);
    lemma_divides_multiple(d, u.1, -1);
    assert(-u.0 == (-1) * u.0);
    assert(-u.1 == (-1) * u.1);
}

/// A common divisor of `t` divides each image of `t`, and each child.
proof fn lemma_common_divisor_transform(d: int, i: int, t: (int, int, int))
    requires
        common_divisor(d, t),
    ensures
        common_divisor(d, transform(i, t)),
        common_divisor(d, child(i, t)),
{
    let u = transform(i, t);
    if i == 0 {
        lemma_divides_combination(d, t.0, t.1, t.2, 1, -2, 2);
        lemma_divides_combination(d, t.0, t.1, t.2, 2, -1, 2);
        lemma_divides_combination(d, t.0, t.1, t.2, 2, -2, 3);
        assert(u.0 == 1 * t.0 + (-2) * t.1 + 2 * t.2);
        assert(u.1 == 2 * t.0 + (-1) * t.1 + 2 * t.2);
        assert(u.2 == 2 * t.0 + (-2) * t.1 + 3 * t.2);
    } else if i == 1 {
        lemma_divides_combination(d, t.0, t.1, t.2, 1, 2, 2);
        lemma_divides_combination(d, t.0, t.1, t.2, 2, 1, 2);
        lemma_divides_combination(d, t.0, t.1, t.2, 2, 2, 3);
        assert(u.0 == 1 * t.0 + 2 * t.1 + 2 * t.2);
        assert(u.1 == 2 * t.0 + 1 * t.1 + 2 * t.2);
        assert(u.2 == 2 * t.0 + 2 * t.1 + 3 * t.2);
    } else {
        lemma_divides_combination(d, t.0, t.1, t.2, -1, 2, 2);
        lemma_divides_combination(d, t.0, t.1, t.2, -2, 1, 2);
        lemma_divides_combination(d, t.0, t.1, t.2, -2, 2, 3);
        assert(u.0 == (-1) * t.0 + 2 * t.1 + 2 * t.2);
        assert(u.1 == (-2) * t.0 + 1 * t.1 + 2 * t.2);
        assert(u.2 == (-2) * t.0 + 2 * t.1 + 3 * t.2);
    }
}

/// The transformations keep the Pythagorean equation.
proof fn lemma_transform_equation(i: int, t: (int, int, int))
    requires
        t.0 * t.0 + t.1 * t.1 == t.2 * t.2,
    ensures
        ({
            let u = transform(i, t);
            u.0 * u.0 + u.1 * u.1 == u.2 * u.2
        }),
{
    let u = transform(i, t);
    let j: int = t.0;
    let k: int = t.1;
    let l: int = t.2;
    if i == 0 {
        assert((j - 2 * k + 2 * l) * (j - 2 * k + 2 * l) + (2 * j - k + 2 * l) * (2 * j - k + 2
            * l) == (2 * j - 2 * k + 3 * l) * (2 * j - 2 * k + 3 * l)) by (nonlinear_arith)
            requires
                j * j + k * k == l * l,
        ;
    } else if i == 1 {
        assert((j + 2 * k + 2 * l) * (j + 2 * k + 2 * l) + (2 * j + k + 2 * l) * (2 * j + k + 2
            * l) == (2 * j + 2 * k + 3 * l) * (2 * j + 2 * k + 3 * l)) by (nonlinear_arith)
            requires
                j * j + k * k == l * l,
        ;
    } else {
        assert((-j + 2 * k + 2 * l) * (-j + 2 * k + 2 * l) + (-2 * j + k + 2 * l) * (-2 * j + k
            + 2 * l) == (-2 * j + 2 * k + 3 * l) * (-2 * j + 2 * k + 3 * l)) by (nonlinear_arith)
            requires
                j * j + k * k == l * l,
        ;
    }
}

/// The inverse transformation keeps the Pythagorean equation.
proof fn lemma_untransform_equation(t: (int, int, int))
    requires
        t.0 * t.0 + t.1 * t.1 == t.2 * t.2,
    ensures
        ({
            let u = untransform(t);
            u.0 * u.0 + u.1 * u.1 == u.2 * u.2
        }),
{
    let a: int = t.0;
    let b: int = t.1;
    let c: int = t.2;
    assert((a + 2 * b - 2 * c) * (a + 2 * b - 2 * c) + (2 * a + b - 2 * c) * (2 * a + b - 2 * c)
        == (3 * c - 2 * a - 2 * b) * (3 * c - 2 * a - 2 * b)) by (nonlinear_arith)
        requires
            a * a + b * b == c * c,
    ;
}

/// Each child of a primitive Pythagorean triple is one, has a larger
/// hypotenuse, and has that triple as its parent, reached by that branch.
pub proof fn lemma_child(i: int, t: (int, int, int))
    requires
        is_primitive_triple(t),
        0 <= i < 3,
    ensures
        is_primitive_triple(child(i, t)),
        child(i, t).2 > t.2,
        child(i, t).2 <= 2 * t.0 + 2 * t.1 + 3 * t.2,
        parent(child(i, t)) == t,
        branch(child(i, t)) == i,
        child(i, t) != root(),
{
    let u = transform(i, t);
    let v = child(i, t);
    lemma_transform_equation(i, t);
    assert(is_pythagorean(v));
    assert(parent(v) == t);
    assert forall|d: int| #[trigger] common_divisor(d, v) implies d == 1 by {
        lemma_common_divisor_untransform(d, v);
    }
}

/// A number whose square is even is even.
proof fn lemma_even_square(z: int)
    requires
        (z * z) % 2 == 0,
    ensures
        z % 2 == 0,
{
    if z % 2 != 0 {
        let q: int = z / 2;
        assert(z == 2 * q + 1);
        assert(z * z == 2 * (2 * q * q + 2 * q) + 1) by (nonlinear_arith)
            requires
                z == 2 * q + 1,
        ;
    }
}

/// No square is twice a positive square, unless both roots are even.
proof fn lemma_double_square(x: int, z: int)
    requires
        2 * (x * x) == z * z,
    ensures
        x % 2 == 0,
        z % 2 == 0,
{
    lemma_even_square(z);
    let w: int = z / 2;
    assert(z == 2 * w);
    assert(x * x == 2 * (w * w)) by (nonlinear_arith)
        requires
            2 * (x * x) == z * z,
            z == 2 * w,
    ;
    lemma_even_square(x);
}

/// Where the legs are in ascending order, the inverse image has a positive
/// first component and a hypotenuse that is positive and smaller.
proof fn lemma_untransform_bounds(t: (int, int, int))
    requires
        is_pythagorean(t),
    ensures
        untransform(t).0 > 0,
        0 < untransform(t).2 < t.2,
        untransform(t).1 == 0 ==> 4 * t.0 == 3 * t.1,
{
    let a: int = t.0;
    let b: int = t.1;
    let c: int = t.2;
    assert(a + 2 * b > 2 * c) by (nonlinear_arith)
        requires
            0 < a < b < c,
            a * a + b * b == c * c,
    {
        if a + 2 * b <= 2 * c {
            assert((a + 2 * b) * (a + 2 * b) <= (2 * c) * (2 * c));
            assert(a * (4 * b - 3 * a) <= 0);
            assert(a * (4 * b - 3 * a) > 0);
        }
    }
    assert(2 * a + 2 * b < 3 * c) by (nonlinear_arith)
        requires
            0 < a < b < c,
            a * a + b * b == c * c,
    {
        if 2 * a + 2 * b >= 3 * c {
            assert((2 * a + 2 * b) * (2 * a + 2 * b) >= (3 * c) * (3 * c));
            assert(4 * ((a - b) * (a - b)) + a * a + b * b <= 0);
            assert((a - b) * (a - b) >= 0);
            assert(a * a > 0);
        }
    }
    assert(c < a + b) by (nonlinear_arith)
        requires
            0 < a < b < c,
            a * a + b * b == c * c,
    {
        if a + b <= c {
            assert((a + b) * (a + b) <= c * c);
            assert(a * b > 0);
        }
    }
    if 2 * a + b == 2 * c {
        assert(4 * a == 3 * b) by (nonlinear_arith)
            requires
                0 < a < b < c,
                a * a + b * b == c * c,
                2 * a + b == 2 * c,
        {
            assert((2 * a + b) * (2 * a + b) == (2 * c) * (2 * c));
            assert(b * (4 * a - 3 * b) == 0);
        }
    }
}

/// Of a Pythagorean equation with positive legs, each leg is below the
/// hypotenuse.
proof fn lemma_leg_below_hypotenuse(j: int, k: int, l: int)
    requires
        0 < j,
        0 < k,
        0 < l,
        j * j + k * k == l * l,
    ensures
        k < l,
{
    assert(k < l) by (nonlinear_arith)
        requires
            0 < j,
            0 < k,
            0 < l,
            j * j + k * k == l * l,
    {
        if k >= l {
            assert(k * k >= l * l);
            assert(j * j > 0);
        }
    }
}

/// Every primitive Pythagorean triple but the root has a parent: a primitive
/// Pythagorean triple with a smaller hypotenuse, of which it is the child on
/// its branch.
pub proof fn lemma_parent(t: (int, int, int))
    requires
        is_primitive_triple(t),
        t != root(),
    ensures
        is_primitive_triple(parent(t)),
        parent(t).2 < t.2,
        0 <= branch(t) < 3,
        child(branch(t), parent(t)) == t,
{
    let u = untransform(t);
    let p = parent(t);
    lemma_untransform_bounds(t);
    lemma_untransform_equation(t);
    if u.1 == 0 {
        let e: int = t.1 - t.0;
        assert(t.0 == 3 * e && t.1 == 4 * e && t.2 == 5 * e);
        lemma_mod_multiples_basic(3, e);
        lemma_mod_multiples_basic(4, e);
        lemma_mod_multiples_basic(5, e);
        assert(common_divisor(e, t));
        assert(false);
    }
    if u.0 + u.1 == 0 {
        assert(2 * (u.0 * u.0) == u.2 * u.2) by (nonlinear_arith)
            requires
                u.0 * u.0 + u.1 * u.1 == u.2 * u.2,
                u.1 == -u.0,
        ;
        lemma_double_square(u.0, u.2);
        assert(common_divisor(2, t));
        assert(false);
    }
    let x: int = magnitude(u.0);
    let y: int = magnitude(u.1);
    assert(x * x == u.0 * u.0) by (nonlinear_arith)
        requires
            x == u.0 || x == -u.0,
    ;
    assert(y * y == u.1 * u.1) by (nonlinear_arith)
        requires
            y == u.1 || y == -u.1,
    ;
    lemma_leg_below_hypotenuse(x, y, u.2);
    lemma_leg_below_hypotenuse(y, x, u.2);
    assert(is_pythagorean(p));
    assert(child(branch(t), p) == t);
    assert forall|d: int| #[trigger] common_divisor(d, p) implies d == 1 by {
        lemma_common_divisor_transform(d, branch(t), p);
    }
}

/// A Pythagorean triple is determined by its hypotenuse and first leg.
pub proof fn lemma_key_determines(s: (int, int, int), t: (int, int, int))
    requires
        is_pythagorean(s),
        is_pythagorean(t),
        s.0 == t.0,
        s.2 == t.2,
    ensures
        s == t,
{
    let x: int = s.1;
    let y: int = t.1;
    assert(x == y) by (nonlinear_arith)
        requires
            0 < x,
            0 < y,
            x * x == y * y,
    {
        assert((x - y) * (x + y) == 0);
    }
}

/// No Pythagorean triple comes before the root.
pub proof fn lemma_root_least(t: (int, int, int))
    requires
        is_pythagorean(t),
    ensures
        key_le(root(), t),
{
    let a: int = t.0;
    let b: int = t.1;
    let c: int = t.2;
    if c <= 5 && !(c == 5 && a >= 3) {
        assert(false) by (nonlinear_arith)
            requires
                0 < a < b < c,
                c <= 5,
                !(c == 5 && a >= 3),
                a * a + b * b == c * c,
        {
            if c == 5 {
                assert(a <= 2 && b <= 4);
                assert(a * a <= 4);
                assert(b * b <= 16);
            } else if c == 4 {
                assert(b == 2 || b == 3);
                assert(a == 1 || a == 2);
            } else {
                assert(c == 3 && b == 2 && a == 1);
            }
        }
    }
}

/// `t` is `p` or lies below `p` in the tree: `p` is reached from `t` by
/// going from child to parent.
pub open spec fn descends(t: (int, int, int), p: (int, int, int)) -> bool
    decreases t.2,
{
    t == p || (t != root() && 0 < parent(t).2 < t.2 && descends(parent(t), p))
}

/// A triple comes no earlier than the triples it descends from.
pub proof fn lemma_descends_key(t: (int, int, int), p: (int, int, int))
    requires
        descends(t, p),
    ensures
        t == p || t.2 > p.2,
        key_le(p, t),
    decreases t.2,
{
    if t != p {
        lemma_descends_key(parent(t), p);
    }
}

/// Descent is transitive.
pub proof fn lemma_descends_transitive(t: (int, int, int), s: (int, int, int), p: (int, int, int))
    requires
        descends(t, s),
        descends(s, p),
    ensures
        descends(t, p),
    decreases t.2,
{
    if t != s {
        lemma_descends_transitive(parent(t), s, p);
    }
}

/// Every primitive Pythagorean triple descends from the root.
pub proof fn lemma_descends_from_root(t: (int, int, int))
    requires
        is_primitive_triple(t),
    ensures
        descends(t, root()),
    decreases t.2,
{
    if t != root() {
        lemma_parent(t);
        lemma_descends_from_root(parent(t));
    }
}

/// Each child descends from its parent.
pub proof fn lemma_child_descends(i: int, t: (int, int, int))
    requires
        is_primitive_triple(t),
        0 <= i < 3,
    ensures
        descends(child(i, t), t),
{
    lemma_child(i, t);
    assert(descends(t, t));
}

/// Whatever lies strictly below `p` lies at or below one of its children.
pub proof fn lemma_descends_through_child(t: (int, int, int), p: (int, int, int))
    requires
        is_primitive_triple(t),
        descends(t, p),
        t != p,
    ensures
        descends(t, child(0, p)) || descends(t, child(1, p)) || descends(t, child(2, p)),
    decreases t.2,
{
    lemma_parent(t);
    if parent(t) != p {
        lemma_descends_through_child(parent(t), p);
    }
}

} // verus!
