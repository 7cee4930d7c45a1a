//! Points of the workspace and the exact test for dangerous proximity.

use crate::scalar::{unit, Scalar};
use crate::wide::{lemma_term_bound, width, Wide};
use vstd::arithmetic::power2::{lemma_pow2_adds, pow2};
use vstd::prelude::*;

verus! {

/// A point of the workspace.
#[derive(Clone, Copy, Debug, PartialEq, Eq, Structural)]
pub struct Position {
    pub x: Scalar,
    pub y: Scalar,
}

/// The square of `a - b`.
pub open spec fn square_of_difference(a: int, b: int) -> int {
    (a - b) * (a - b)
}

/// The square of a difference of two signed products, written as a sum of
/// three products of non-negative factors.
proof fn lemma_expand_square(ma: int, pa: int, na: bool, mb: int, pb: int, nb: bool)
    ensures
        square_of_difference(
            if na {
                -(ma * pa)
            } else {
                ma * pa
            },
            if nb {
                -(mb * pb)
            } else {
                mb * pb
            },
        ) == (ma * ma) * (pa * pa) + (mb * mb) * (pb * pb) + if na == nb {
            -((2 * ma * mb) * (pa * pb))
        } else {
            (2 * ma * mb) * (pa * pb)
        },
{
    let a = ma * pa;
    let b = mb * pb;
    assert(a * a == (ma * ma) * (pa * pa)) by (nonlinear_arith)
        requires
            a == ma * pa,
    ;
    assert(b * b == (mb * mb) * (pb * pb)) by (nonlinear_arith)
        requires
            b == mb * pb,
    ;
    assert(2 * (a * b) == (2 * ma * mb) * (pa * pb)) by (nonlinear_arith)
        requires
            a == ma * pa,
            b == mb * pb,
    ;
    assert((a - b) * (a - b) == a * a + b * b - 2 * (a * b)) by (nonlinear_arith);
    assert((a + b) * (a + b) == a * a + b * b + 2 * (a * b)) by (nonlinear_arith);
    assert((-a - b) * (-a - b) == a * a + b * b + 2 * (a * b)) by (nonlinear_arith);
    assert((-a + b) * (-a + b) == a * a + b * b - 2 * (a * b)) by (nonlinear_arith);
    assert(-a - (-b) == -a + b);
    assert(a - (-b) == a + b);
}

/// Adds the square of `a - b`, in squared units, to the difference
/// `plus - minus` of two running sums.
fn add_square_of_difference(plus: &mut Wide, minus: &mut Wide, a: &Scalar, b: &Scalar)
    requires
        a.finite(),
        b.finite(),
        old(plus).wf(),
        old(minus).wf(),
        old(plus).value() + 3 * pow2(576) <= pow2(width()),
        old(minus).value() + pow2(576) <= pow2(width()),
    ensures
        final(plus).wf(),
        final(minus).wf(),
        final(plus).value() - final(minus).value() == old(plus).value() - old(minus).value()
            + square_of_difference(a.units(), b.units()),
        final(plus).value() <= old(plus).value() + 3 * pow2(576),
        final(minus).value() <= old(minus).value() + pow2(576),
{
    let (ma, sa) = a.decompose();
    let (mb, sb) = b.decompose();
    assert(ma * ma < 0x1_0000_0000_0000 && mb * mb < 0x1_0000_0000_0000 && 2 * ma * mb
        < 0x2_0000_0000_0000) by (nonlinear_arith)
        requires
            ma < 0x100_0000,
            mb < 0x100_0000,
    ;
    let square_a: u64 = ma * ma;
    let square_b: u64 = mb * mb;
    let cross: u64 = 2 * ma * mb;
    let same_sign = a.is_sign_negative() == b.is_sign_negative();
    proof {
        lemma_term_bound(square_a, (2 * sa) as nat);
        lemma_term_bound(square_b, (2 * sb) as nat);
        lemma_term_bound(cross, (sa + sb) as nat);
        lemma_pow2_adds(sa as nat, sa as nat);
        lemma_pow2_adds(sb as nat, sb as nat);
        lemma_pow2_adds(sa as nat, sb as nat);
        lemma_expand_square(
            ma as int,
            pow2(sa as nat) as int,
            a.sign_negative(),
            mb as int,
            pow2(sb as nat) as int,
            b.sign_negative(),
        );
    }
    plus.add_shifted(square_a, 2 * sa);
    plus.add_shifted(square_b, 2 * sb);
    if same_sign {
        minus.add_shifted(cross, sa + sb);
    } else {
        plus.add_shifted(cross, sa + sb);
    }
}

impl Position {
    /// Both coordinates are finite numbers.
    pub open spec fn finite(self) -> bool {
        self.x.finite() && self.y.finite()
    }

    /// The square of the Euclidean distance between two finite points, in
    /// squared units of `2^-149`.
    pub open spec fn distance_squared(self, other: Position) -> int {
        square_of_difference(self.x.units(), other.x.units()) + square_of_difference(
            self.y.units(),
            other.y.units(),
        )
    }

    /// The Euclidean distance between the two points is smaller than `d`.
    /// A point with a coordinate that is infinite or not a number is close
    /// to nothing.
    pub open spec fn is_closer_than(self, other: Position, d: int) -> bool {
        &&& self.finite()
        &&& other.finite()
        &&& self.distance_squared(other) < d * d * (unit() * unit())
    }

    /// A point with the given coordinates.
    pub fn new(x: Scalar, y: Scalar) -> (r: Position)
        ensures
            r.x == x,
            r.y == y,
    {
        Position { x, y }
    }

    /// Whether both coordinates are finite numbers.
    pub fn is_finite(&self) -> (r: bool)
        ensures
            r == self.finite(),
    {
        self.x.is_finite() && self.y.is_finite()
    }

    /// Whether the Euclidean distance to `other` is smaller than `d`,
    /// decided exactly.
    pub fn closer_than(&self, other: &Position, d: u32) -> (r: bool)
        ensures
            r == self.is_closer_than(*other, d as int),
    {
        if !self.is_finite() || !other.is_finite() {
            return false;
        }
        assert(d * d < 0x1_0000_0000_0000_0000) by (nonlinear_arith)
            requires
                d < 0x1_0000_0000,
        ;
        let limit: u64 = (d as u64) * (d as u64);
        let mut plus = Wide::zero();
        let mut minus = Wide::zero();
        proof {
            lemma_term_bound(limit, 298);
            lemma_pow2_adds(149, 149);
        }
        minus.add_shifted(limit, 298);
        add_square_of_difference(&mut plus, &mut minus, &self.x, &other.x);
        add_square_of_difference(&mut plus, &mut minus, &self.y, &other.y);
        proof {
            assert(d * d * (unit() * unit()) == limit * pow2(298));
        }
        plus.lt(&minus)
    }
}

} // verus!
