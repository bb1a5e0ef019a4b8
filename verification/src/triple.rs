//! Triples of integers, the order in which they are produced, and the three
//! linear maps that send one primitive Pythagorean triple to its children.

use vstd::prelude::*;

verus! {

/// The mathematical value of a machine triple.
pub open spec fn ints(t: (i64, i64, i64)) -> (int, int, int) {
    (t.0 as int, t.1 as int, t.2 as int)
}

/// `d` is a positive integer that divides all three components of `t`.
pub open spec fn common_divisor(d: int, t: (int, int, int)) -> bool {
    d > 0 && t.0 % d == 0 && t.1 % d == 0 && t.2 % d == 0
}

/// The components of `t` have no common divisor but 1.
pub open spec fn is_primitive(t: (int, int, int)) -> bool {
    forall|d: int| #[trigger] common_divisor(d, t) ==> d == 1
}

/// `t` is a right triangle with integer sides, the legs in ascending order.
pub open spec fn is_pythagorean(t: (int, int, int)) -> bool {
    0 < t.0 < t.1 < t.2 && t.0 * t.0 + t.1 * t.1 == t.2 * t.2
}

/// `t` is a primitive Pythagorean triple `(a, b, c)` with `a < b < c`.
pub open spec fn is_primitive_triple(t: (int, int, int)) -> bool {
    is_pythagorean(t) && is_primitive(t)
}

/// The triple from which all others descend.
pub open spec fn root() -> (int, int, int) {
    (3, 4, 5)
}

/// Strict order by hypotenuse, then by first leg.
pub open spec fn key_lt(s: (int, int, int), t: (int, int, int)) -> bool {
    s.2 < t.2 || (s.2 == t.2 && s.0 < t.0)
}

/// Weak order by hypotenuse, then by first leg.
pub open spec fn key_le(s: (int, int, int), t: (int, int, int)) -> bool {
    s.2 < t.2 || (s.2 == t.2 && s.0 <= t.0)
}

/// The product of the `i`-th transformation matrix with the vector `t`.
///
/// The matrices are
/// ```text
///   1 -2  2      1  2  2     -1  2  2
///   2 -1  2      2  1  2     -2  1  2
///   2 -2  3      2  2  3     -2  2  3
/// ```
/// for `i` = 0, 1 and any other value, in that order.
pub open spec fn transform(i: int, t: (int, int, int)) -> (int, int, int) {
    if i == 0 {
        (t.0 - 2 * t.1 + 2 * t.2, 2 * t.0 - t.1 + 2 * t.2, 2 * t.0 - 2 * t.1 + 3 * t.2)
    } else if i == 1 {
        (t.0 + 2 * t.1 + 2 * t.2, 2 * t.0 + t.1 + 2 * t.2, 2 * t.0 + 2 * t.1 + 3 * t.2)
    } else {
        (-t.0 + 2 * t.1 + 2 * t.2, -2 * t.0 + t.1 + 2 * t.2, -2 * t.0 + 2 * t.1 + 3 * t.2)
    }
}

/// `t` with its first two components in ascending order.
pub open spec fn sorted_legs(t: (int, int, int)) -> (int, int, int) {
    if t.0 <= t.1 {
        t
    } else {
        (t.1, t.0, t.2)
    }
}

/// The `i`-th child of `t`, as it is stored: transformed, then legs sorted.
pub open spec fn child(i: int, t: (int, int, int)) -> (int, int, int) {
    sorted_legs(transform(i, t))
}

/// The largest component that any child of `t` has, for positive `t`.
pub open spec fn child_bound(t: (int, int, int)) -> int {
    2 * t.0 + 2 * t.1 + 3 * t.2
}

/// All children of `t` can be held in 64-bit signed integers.
pub open spec fn expandable(t: (int, int, int)) -> bool {
    child_bound(t) <= i64::MAX
}

/// Whether the children of `t` fit the machine integers, where no component
/// of `t` is negative.
pub fn is_expandable(t: (i64, i64, i64)) -> (r: bool)
    ensures
        r == expandable(ints(t)),
{
    let limit: i128 = i64::MAX as i128;
    2 * (t.0 as i128) + 2 * (t.1 as i128) + 3 * (t.2 as i128) <= limit
}

/// Computes the `i`-th child of `t`.
pub fn make_child(i: u8, t: (i64, i64, i64)) -> (r: (i64, i64, i64))
    requires
        i < 3,
        0 <= t.0,
        0 <= t.1,
        0 <= t.2,
        expandable(ints(t)),
    ensures
        ints(r) == child(i as int, ints(t)),
{
    let j: i64 = t.0;
    let k: i64 = t.1;
    let l: i64 = t.2;
    let m: i64;
    let n: i64;
    let o: i64;
    if i == 0 {
        m = j - 2 * k + 2 * l;
        n = 2 * j - k + 2 * l;
        o = 2 * j - 2 * k + 3 * l;
    } else if i == 1 {
        m = j + 2 * k + 2 * l;
        n = 2 * j + k + 2 * l;
        o = 2 * j + 2 * k + 3 * l;
    } else {
        m = 2 * k - j + 2 * l;
        n = k - 2 * j + 2 * l;
        o = 2 * k - 2 * j + 3 * l;
    }
    if m <= n {
        (m, n, o)
    } else {
        (n, m, o)
    }
}

/// Whether `s` comes before `t`: by hypotenuse, then by first leg.
pub fn comes_before(s: (i64, i64, i64), t: (i64, i64, i64)) -> (r: bool)
    ensures
        r == key_lt(ints(s), ints(t)),
{
    s.2 < t.2 || (s.2 == t.2 && s.0 < t.0)
}

} // verus!
