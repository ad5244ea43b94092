//! Conway tangles: the elementary two-strand pieces from which rational
//! knots are assembled.  This type carries the basic tangles — two
//! horizontal strands, two vertical strands, and an integer twist region —
//! and the operations on them that stay within that family.

use vstd::prelude::*;

verus! {

/// A basic Conway tangle.
pub enum Tangle {
    /// Two vertical strands.
    Infinity,
    /// Two horizontal strands.
    Zero,
    /// Two strands twisted around each other; the sign of the count gives
    /// the handedness (left- or right-handed twists).
    N(isize),
}

/// A corner of a tangle's enclosing disk at which a strand crossing sits.
pub enum PointOfCrossing {
    NW,
    NE,
    SW,
    SE,
}

/// Conway's fraction classifies the basic tangles: `Zero` has fraction
/// `0`, `Infinity` has fraction `1/0`, and `N(k)` has fraction `k`.  Two
/// basic tangles are equivalent exactly when their fractions agree, so
/// `Zero` and `N(0)` coincide and no other distinct pair does.
pub open spec fn tangles_equivalent(a: Tangle, b: Tangle) -> bool {
    match (a, b) {
        (Tangle::Infinity, Tangle::Infinity) => true,
        (Tangle::Zero, Tangle::Zero) => true,
        (Tangle::Zero, Tangle::N(k)) => k == 0,
        (Tangle::N(k), Tangle::Zero) => k == 0,
        (Tangle::N(k1), Tangle::N(k2)) => k1 == k2,
        _ => false,
    }
}

/// Tangle addition places two tangles side by side.  Fractions add under
/// it: twist regions concatenate, `Zero` is the neutral element, and a
/// vertical pair absorbs anything beside it.
pub open spec fn tangle_sum(a: Tangle, b: Tangle) -> Tangle {
    match (a, b) {
        (Tangle::Infinity, _) => Tangle::Infinity,
        (_, Tangle::Infinity) => Tangle::Infinity,
        (Tangle::Zero, other) => other,
        (other, Tangle::Zero) => other,
        (Tangle::N(k1), Tangle::N(k2)) => Tangle::N((k1 + k2) as isize),
    }
}

impl Tangle {
    /// Returns `true` if this is a rational tangle and `false` otherwise.
    /// The basic tangles this type can hold — two horizontal strands, two
    /// vertical strands, and integer twist regions — are the generators of
    /// Conway's rational tangles, so every value here is rational.
    pub fn is_rational(&self) -> (r: bool)
        ensures
            r,
    {
        true
    }

    /// Whether this tangle and `other` denote the same tangle, by
    /// Conway's classification: equal fractions, equivalent tangles.
    pub fn equivalent(&self, other: &Tangle) -> (r: bool)
        ensures
            r == tangles_equivalent(*self, *other),
    {
        match (self, other) {
            (Tangle::Infinity, Tangle::Infinity) => true,
            (Tangle::Zero, Tangle::Zero) => true,
            (Tangle::Zero, Tangle::N(k)) => *k == 0,
            (Tangle::N(k), Tangle::Zero) => *k == 0,
            (Tangle::N(k1), Tangle::N(k2)) => *k1 == *k2,
            _ => false,
        }
    }

    /// The sum of this tangle and `other`: the two placed side by side.
    /// The sum of two vertical-strand tangles closes off a circle and
    /// leaves the family of basic tangles, so that one pair is excluded;
    /// twist counts must not overflow when they combine.
    pub fn sum(&self, other: &Tangle) -> (r: Tangle)
        requires
            !(*self matches Tangle::Infinity && *other matches Tangle::Infinity),
            (*self, *other) matches (Tangle::N(k1), Tangle::N(k2)) ==> isize::MIN <= k1 + k2
                <= isize::MAX,
        ensures
            r == tangle_sum(*self, *other),
    {
        match (self, other) {
            (Tangle::Infinity, _) => Tangle::Infinity,
            (_, Tangle::Infinity) => Tangle::Infinity,
            (Tangle::Zero, Tangle::Zero) => Tangle::Zero,
            (Tangle::Zero, Tangle::N(k)) => Tangle::N(*k),
            (Tangle::N(k), Tangle::Zero) => Tangle::N(*k),
            (Tangle::N(k1), Tangle::N(k2)) => Tangle::N(*k1 + *k2),
        }
    }
}

} // verus!
