//! Primitive Pythagorean triples in ascending order.
//!
//! The crate produces, one at a time, every triple `(a, b, c)` of positive
//! integers with `a < b < c`, `a² + b² = c²` and no common divisor, ordered
//! by the hypotenuse `c` and then by the shorter leg `a`.

pub mod frontier;
pub mod heap;
pub mod sequence;
pub mod stream;
pub mod tree;
pub mod triple;

pub use stream::{pythagorean_triples, PythagoreanTripleIter};
