//! Integer 3-D points and squared Euclidean distance.

use vstd::prelude::*;

verus! {

/// Largest coordinate magnitude the index accepts.  The bound keeps every
/// derived quantity — cube centers, half-sides, squared distances — inside
/// `i64` and `i128` arithmetic.
pub const COORD_LIMIT: i64 = 0x0100_0000_0000_0000;

/// A point in three-dimensional space with integer coordinates.
#[derive(Clone, Copy, PartialEq, Eq, Structural, Debug)]
pub struct Vec3 {
    pub x: i64,
    pub y: i64,
    pub z: i64,
}

impl Vec3 {
    /// Every coordinate within the working range.
    pub open spec fn in_range(self) -> bool {
        &&& -COORD_LIMIT <= self.x <= COORD_LIMIT
        &&& -COORD_LIMIT <= self.y <= COORD_LIMIT
        &&& -COORD_LIMIT <= self.z <= COORD_LIMIT
    }

}

/// Squared Euclidean distance between two points, as a mathematical integer.
pub open spec fn dist_sq(p: Vec3, q: Vec3) -> int {
    (p.x - q.x) * (p.x - q.x) + (p.y - q.y) * (p.y - q.y) + (p.z - q.z) * (p.z - q.z)
}

/// `p` lies within Chebyshev distance `r` of `c`: within `r` along every
/// single axis.
pub open spec fn within_chebyshev(p: Vec3, c: Vec3, r: int) -> bool {
    &&& -r <= p.x - c.x <= r
    &&& -r <= p.y - c.y <= r
    &&& -r <= p.z - c.z <= r
}

/// Squared distance does not depend on the order of its arguments.
pub proof fn lemma_dist_sq_symm(p: Vec3, q: Vec3)
    by (nonlinear_arith)
    ensures
        dist_sq(p, q) == dist_sq(q, p),
{
}

/// A square never exceeds the square of a bound on the factor's magnitude.
pub proof fn lemma_mul_self_bound(a: int, b: int)
    by (nonlinear_arith)
    requires
        -b <= a <= b,
        0 <= b,
    ensures
        0 <= a * a <= b * b,
{
}

/// An integer whose square is below `r * r` lies strictly between `-r` and `r`.
proof fn lemma_sq_below(a: int, r: int)
    by (nonlinear_arith)
    requires
        a * a < r * r,
        0 <= r,
    ensures
        -r < a < r,
{
}

/// A point within Euclidean distance `r` of `q` is within `r` of `q` along
/// each single axis as well.
pub proof fn lemma_axis_within(p: Vec3, q: Vec3, r: int)
    requires
        dist_sq(p, q) < r * r,
        0 <= r,
    ensures
        -r < p.x - q.x < r,
        -r < p.y - q.y < r,
        -r < p.z - q.z < r,
{
    let dx = p.x - q.x;
    let dy = p.y - q.y;
    let dz = p.z - q.z;
    assert(dx * dx >= 0 && dy * dy >= 0 && dz * dz >= 0) by (nonlinear_arith);
    lemma_sq_below(dx, r);
    lemma_sq_below(dy, r);
    lemma_sq_below(dz, r);
}

/// Computes `dist_sq` exactly, in 128-bit arithmetic.
pub fn dist_sq_exec(p: &Vec3, q: &Vec3) -> (d: i128)
    requires
        p.in_range(),
        q.in_range(),
    ensures
        d == dist_sq(*p, *q),
{
    let dx: i128 = p.x as i128 - q.x as i128;
    let dy: i128 = p.y as i128 - q.y as i128;
    let dz: i128 = p.z as i128 - q.z as i128;
    proof {
        lemma_mul_self_bound(dx as int, 2 * COORD_LIMIT);
        lemma_mul_self_bound(dy as int, 2 * COORD_LIMIT);
        lemma_mul_self_bound(dz as int, 2 * COORD_LIMIT);
    }
    dx * dx + dy * dy + dz * dz
}

} // verus!
