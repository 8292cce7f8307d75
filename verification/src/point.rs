//! Points of the integer plane, the exact distance between them and the
//! order in which ties between equally distant points are broken.

use vstd::prelude::*;
use crate::distance::{
    is_floor_sqrt,
    lemma_floor_sqrt_unique,
    scale_root,
    scaled_root,
    DistanceKey,
};

verus! {

/// A point of the plane with integer coordinates. Two points are the same
/// point exactly when both coordinates agree.
#[derive(PartialEq, Eq, Structural, Debug, Clone, Copy, Hash, PartialOrd, Ord)]
pub struct Point(pub isize, pub isize);

/// What the square of `long + extra` has over the square of `long`.
spec fn excess_cost(long: nat, extra: nat) -> nat {
    extra * (2 * long + extra)
}

/// The distance between two coordinates.
fn span(a: isize, b: isize) -> (d: u128)
    ensures
        d == a - b || d == b - a,
        d < 0x1_0000_0000_0000_0000,
{
    let difference: i128 = a as i128 - b as i128;
    if difference < 0 {
        (-difference) as u128
    } else {
        difference as u128
    }
}

/// Finds by how much the rounded-down square root of `long * long + short *
/// short` exceeds `long`.
fn root_excess(long: u128, short: u128) -> (extra: u128)
    requires
        short <= long < 0x1_0000_0000_0000_0000,
    ensures
        extra <= short,
        excess_cost(long as nat, extra as nat) <= short * short,
        short * short < excess_cost(long as nat, (extra + 1) as nat),
{
    assert(short * short <= u128::MAX) by (nonlinear_arith)
        requires
            short < 0x1_0000_0000_0000_0000u128,
    ;
    let square: u128 = short * short;
    let mut low: u128 = 0;
    let mut high: u128 = short + 1;
    assert(excess_cost(long as nat, 0) == 0);
    assert(short * short < excess_cost(long as nat, (short + 1) as nat)) by (nonlinear_arith)
        requires
            short <= long,
            excess_cost(long as nat, (short + 1) as nat) == (short + 1) * (2 * long + (short + 1)),
    ;
    while high - low > 1
        invariant
            low < high <= short + 1,
            short <= long < 0x1_0000_0000_0000_0000,
            square == short * short,
            excess_cost(long as nat, low as nat) <= square,
            square < excess_cost(long as nat, high as nat),
        decreases high - low,
    {
        let mid: u128 = low + (high - low) / 2;
        let fits = match mid.checked_mul(2 * long + mid) {
            Some(cost) => cost <= square,
            None => false,
        };
        if fits {
            low = mid;
        } else {
            high = mid;
        }
    }
    low
}

impl Point {
    /// The square of the Euclidean distance between two points.
    pub open spec fn squared_distance_to(self, p: Point) -> nat {
        ((self.0 - p.0) * (self.0 - p.0) + (self.1 - p.1) * (self.1 - p.1)) as nat
    }

    /// The Euclidean distance between two points in steps of 10^-6, rounded
    /// down.
    pub open spec fn key_to(self, p: Point) -> nat {
        scaled_root(self.squared_distance_to(p))
    }

    /// This point orders strictly before `p`: first by the first coordinate,
    /// then by the second.
    pub open spec fn precedes(self, p: Point) -> bool {
        self.0 < p.0 || (self.0 == p.0 && self.1 < p.1)
    }

    /// Computes the key of the Euclidean distance to `p`: the distance cut
    /// off after six decimal digits.
    pub fn distance_key(&self, p: &Point) -> (key: DistanceKey)
        ensures
            key.wf(),
            key.scaled() == self.key_to(*p),
            key.scaled() == p.key_to(*self),
            *self == *p ==> key.scaled() == 0,
    {
        let across = span(self.0, p.0);
        let along = span(self.1, p.1);
        let (long, short) = if across < along {
            (along, across)
        } else {
            (across, along)
        };
        let extra = root_excess(long, short);
        let root: u128 = long + extra;
        assert(extra * (2 * long + extra) == excess_cost(long as nat, extra as nat));
        assert(short * short <= u128::MAX) by (nonlinear_arith)
            requires
                short < 0x1_0000_0000_0000_0000u128,
        ;
        let rest: u128 = short * short - extra * (2 * long + extra);
        let ghost squared = self.squared_distance_to(*p);
        proof {
            assert(across * across == (self.0 - p.0) * (self.0 - p.0)) by (nonlinear_arith)
                requires
                    across == self.0 - p.0 || across == p.0 - self.0,
            ;
            assert(along * along == (self.1 - p.1) * (self.1 - p.1)) by (nonlinear_arith)
                requires
                    along == self.1 - p.1 || along == p.1 - self.1,
            ;
            assert(squared == long * long + short * short);
            assert(root * root == long * long + excess_cost(long as nat, extra as nat))
                by (nonlinear_arith)
                requires
                    root == long + extra,
                    excess_cost(long as nat, extra as nat) == extra * (2 * long + extra),
            ;
            assert((root + 1) * (root + 1) == long * long + excess_cost(
                long as nat,
                (extra + 1) as nat,
            )) by (nonlinear_arith)
                requires
                    root == long + extra,
                    excess_cost(long as nat, (extra + 1) as nat) == (extra + 1) * (2 * long + (extra
                        + 1)),
            ;
            assert(is_floor_sqrt(squared, root as nat));
            lemma_distance_is_symmetric(*self, *p);
            if *self == *p {
                lemma_distance_to_self_is_zero(*self);
            }
        }
        DistanceKey::from_scaled(scale_root(root, rest, Ghost(squared)))
    }

    /// Tells whether this point orders strictly before `p`.
    pub fn comes_before(&self, p: &Point) -> (b: bool)
        ensures
            b == self.precedes(*p),
    {
        self.0 < p.0 || (self.0 == p.0 && self.1 < p.1)
    }
}

/// The distance from `a` to `b` is the distance from `b` to `a`.
pub proof fn lemma_distance_is_symmetric(a: Point, b: Point)
    ensures
        a.squared_distance_to(b) == b.squared_distance_to(a),
        a.key_to(b) == b.key_to(a),
{
    assert((a.0 - b.0) * (a.0 - b.0) == (b.0 - a.0) * (b.0 - a.0)) by (nonlinear_arith);
    assert((a.1 - b.1) * (a.1 - b.1) == (b.1 - a.1) * (b.1 - a.1)) by (nonlinear_arith);
}

/// The distance from a point to itself is zero, and so is its key.
pub proof fn lemma_distance_to_self_is_zero(a: Point)
    ensures
        a.squared_distance_to(a) == 0,
        a.key_to(a) == 0,
{
    assert(0nat * 0nat <= 0 < (0nat + 1) * (0nat + 1)) by (nonlinear_arith);
    lemma_floor_sqrt_unique(0, 0);
}

/// Of two different points exactly one orders before the other, and no point
/// orders before itself.
pub proof fn lemma_precedes_is_total(a: Point, b: Point)
    ensures
        a == b <==> !a.precedes(b) && !b.precedes(a),
        !(a.precedes(b) && b.precedes(a)),
{
}

/// The order of the points is transitive.
pub proof fn lemma_precedes_is_transitive(a: Point, b: Point, c: Point)
    ensures
        a.precedes(b) && b.precedes(c) ==> a.precedes(c),
        !b.precedes(a) && !c.precedes(b) ==> !c.precedes(a),
{
}

} // verus!
