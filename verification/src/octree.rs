//! The spatial index: bounding regions, partition nodes, and the
//! queries built on top of them.

use vstd::prelude::*;
use vstd::math::abs;
use vstd::multiset::Multiset;
use crate::geom::{
    Vec3, dist_sq, dist_sq_exec, within_chebyshev, COORD_LIMIT, lemma_axis_within,
    lemma_dist_sq_symm, lemma_mul_self_bound,
};
use crate::sorting::{sorted, sort_ascending};

verus! {

broadcast use vstd::seq_lib::group_to_multiset_ensures, vstd::seq_lib::lemma_multiset_commutative;

/// Classification of how two bounding regions relate, treating both
/// as axis-aligned cubes.
#[derive(Clone, Copy, PartialEq, Eq, Structural, Debug)]
pub enum Interaction {
    Disjoint,
    Overlap,
    Within,
    Contains,
}

/// An axis-aligned cubic volume: a center and half the side length.
#[derive(Clone, Copy, PartialEq, Eq, Structural, Debug)]
pub struct Boundary {
    pub center: Vec3,
    pub h_side: i64,
}

/// Coordinate of `p` along `axis` (0 is x, 1 is y, 2 is z).
pub open spec fn coord(p: Vec3, axis: int) -> int {
    if axis == 0 {
        p.x as int
    } else if axis == 1 {
        p.y as int
    } else {
        p.z as int
    }
}

/// Least coordinate along `axis` over a non-empty sequence of points.
pub open spec fn min_coord(s: Seq<Vec3>, axis: int) -> int
    recommends
        s.len() >= 1,
    decreases s.len(),
{
    if s.len() <= 1 {
        coord(s[0], axis)
    } else {
        let m = min_coord(s.drop_last(), axis);
        let c = coord(s.last(), axis);
        if c < m {
            c
        } else {
            m
        }
    }
}

/// Greatest coordinate along `axis` over a non-empty sequence of points.
pub open spec fn max_coord(s: Seq<Vec3>, axis: int) -> int
    recommends
        s.len() >= 1,
    decreases s.len(),
{
    if s.len() <= 1 {
        coord(s[0], axis)
    } else {
        let m = max_coord(s.drop_last(), axis);
        let c = coord(s.last(), axis);
        if c > m {
            c
        } else {
            m
        }
    }
}

/// The greatest of three integers.
pub open spec fn max3(a: int, b: int, c: int) -> int {
    if a >= b && a >= c {
        a
    } else if b >= c {
        b
    } else {
        c
    }
}

/// Every coordinate of a non-empty sequence lies between the minimum and
/// the maximum, and both are attained.
proof fn lemma_minmax_coord(s: Seq<Vec3>, axis: int)
    requires
        s.len() >= 1,
    ensures
        forall|i: int|
            0 <= i < s.len() ==> min_coord(s, axis) <= #[trigger] coord(s[i], axis) <= max_coord(
                s,
                axis,
            ),
        exists|i: int| 0 <= i < s.len() && min_coord(s, axis) == coord(s[i], axis),
        exists|i: int| 0 <= i < s.len() && max_coord(s, axis) == coord(s[i], axis),
    decreases s.len(),
{
    if s.len() == 1 {
        assert(min_coord(s, axis) == coord(s[0], axis));
        assert(max_coord(s, axis) == coord(s[0], axis));
    } else {
        lemma_minmax_coord(s.drop_last(), axis);
        let n = s.len() - 1;
        assert(forall|i: int| 0 <= i < n ==> s.drop_last()[i] == s[i]);
        assert(s.last() == s[n]);
        assert forall|i: int| 0 <= i < s.len() implies min_coord(s, axis) <= #[trigger] coord(
            s[i],
            axis,
        ) <= max_coord(s, axis) by {
            if i < n {
                assert(coord(s.drop_last()[i], axis) == coord(s[i], axis));
            }
        }
        let jm = choose|j: int|
            0 <= j < n && min_coord(s.drop_last(), axis) == coord(s.drop_last()[j], axis);
        let jx = choose|j: int|
            0 <= j < n && max_coord(s.drop_last(), axis) == coord(s.drop_last()[j], axis);
        if coord(s.last(), axis) < min_coord(s.drop_last(), axis) {
            assert(min_coord(s, axis) == coord(s[n], axis));
        } else {
            assert(min_coord(s, axis) == coord(s[jm], axis));
        }
        if coord(s.last(), axis) > max_coord(s.drop_last(), axis) {
            assert(max_coord(s, axis) == coord(s[n], axis));
        } else {
            assert(max_coord(s, axis) == coord(s[jx], axis));
        }
    }
}

impl Boundary {
    /// Well-formed: the half-side is nonnegative and the whole cube stays
    /// inside the working range, so queries against it never overflow.
    pub open spec fn bounded(self) -> bool {
        &&& 0 <= self.h_side
        &&& -3 * COORD_LIMIT <= self.center.x - self.h_side
        &&& self.center.x + self.h_side <= 3 * COORD_LIMIT
        &&& -3 * COORD_LIMIT <= self.center.y - self.h_side
        &&& self.center.y + self.h_side <= 3 * COORD_LIMIT
        &&& -3 * COORD_LIMIT <= self.center.z - self.h_side
        &&& self.center.z + self.h_side <= 3 * COORD_LIMIT
    }

    /// The closed cube contains `p`: each coordinate of `p` is within
    /// `h_side` of the center.
    pub open spec fn contains_point(self, p: Vec3) -> bool {
        &&& self.center.x - self.h_side <= p.x <= self.center.x + self.h_side
        &&& self.center.y - self.h_side <= p.y <= self.center.y + self.h_side
        &&& self.center.z - self.h_side <= p.z <= self.center.z + self.h_side
    }

    /// What `intersection` returns: `Disjoint` when some axis separates the
    /// two cubes; `Within`/`Contains` when one cube encloses the other;
    /// `Overlap` otherwise.
    pub open spec fn interaction_spec(self, other: Boundary) -> Interaction {
        let dx = abs(self.center.x - other.center.x);
        let dy = abs(self.center.y - other.center.y);
        let dz = abs(self.center.z - other.center.z);
        let sum = self.h_side + other.h_side;
        if dx > sum || dy > sum || dz > sum {
            Interaction::Disjoint
        } else {
            let diff = abs(other.h_side - self.h_side);
            if dx <= diff && dy <= diff && dz <= diff {
                if other.h_side > self.h_side {
                    Interaction::Within
                } else {
                    Interaction::Contains
                }
            } else {
                Interaction::Overlap
            }
        }
    }

    /// Smallest enclosing cube of a non-empty point set: the center is the
    /// per-axis midpoint of the extremes, the half-side the greatest
    /// distance from the center to a maximal coordinate.
    pub fn from_points(points: &Vec<Vec3>) -> (b: Boundary)
        requires
            points@.len() >= 1,
            forall|i: int| 0 <= i < points@.len() ==> (#[trigger] points@[i]).in_range(),
        ensures
            b.bounded(),
            b.center.x == min_coord(points@, 0) + (max_coord(points@, 0) - min_coord(points@, 0))
                / 2,
            b.center.y == min_coord(points@, 1) + (max_coord(points@, 1) - min_coord(points@, 1))
                / 2,
            b.center.z == min_coord(points@, 2) + (max_coord(points@, 2) - min_coord(points@, 2))
                / 2,
            b.h_side == max3(
                max_coord(points@, 0) - b.center.x,
                max_coord(points@, 1) - b.center.y,
                max_coord(points@, 2) - b.center.z,
            ),
            forall|i: int| 0 <= i < points@.len() ==> b.contains_point(#[trigger] points@[i]),
    {
        let first = points[0];
        let mut min_x = first.x;
        let mut min_y = first.y;
        let mut min_z = first.z;
        let mut max_x = first.x;
        let mut max_y = first.y;
        let mut max_z = first.z;
        proof {
            assert(points@.take(1).len() == 1);
            assert(points@.take(1)[0] == points@[0]);
        }
        let mut i: usize = 1;
        while i < points.len()
            invariant
                1 <= i <= points@.len(),
                forall|k: int| 0 <= k < points@.len() ==> (#[trigger] points@[k]).in_range(),
                min_x == min_coord(points@.take(i as int), 0),
                min_y == min_coord(points@.take(i as int), 1),
                min_z == min_coord(points@.take(i as int), 2),
                max_x == max_coord(points@.take(i as int), 0),
                max_y == max_coord(points@.take(i as int), 1),
                max_z == max_coord(points@.take(i as int), 2),
                -COORD_LIMIT <= min_x <= COORD_LIMIT,
                -COORD_LIMIT <= min_y <= COORD_LIMIT,
                -COORD_LIMIT <= min_z <= COORD_LIMIT,
                -COORD_LIMIT <= max_x <= COORD_LIMIT,
                -COORD_LIMIT <= max_y <= COORD_LIMIT,
                -COORD_LIMIT <= max_z <= COORD_LIMIT,
            decreases points@.len() - i,
        {
            let p = points[i];
            proof {
                assert(points@.take(i + 1).drop_last() =~= points@.take(i as int));
                assert(points@.take(i + 1).last() == points@[i as int]);
            }
            if p.x < min_x {
                min_x = p.x;
            }
            if p.y < min_y {
                min_y = p.y;
            }
            if p.z < min_z {
                min_z = p.z;
            }
            if p.x > max_x {
                max_x = p.x;
            }
            if p.y > max_y {
                max_y = p.y;
            }
            if p.z > max_z {
                max_z = p.z;
            }
            i = i + 1;
        }
        proof {
            assert(points@.take(points@.len() as int) =~= points@);
        }
        let cx = min_x + (max_x - min_x) / 2;
        let cy = min_y + (max_y - min_y) / 2;
        let cz = min_z + (max_z - min_z) / 2;
        let dx = max_x - cx;
        let dy = max_y - cy;
        let dz = max_z - cz;
        let h = if dx >= dy && dx >= dz {
            dx
        } else if dy >= dz {
            dy
        } else {
            dz
        };
        let b = Boundary { center: Vec3 { x: cx, y: cy, z: cz }, h_side: h };
        proof {
            lemma_minmax_coord(points@, 0);
            lemma_minmax_coord(points@, 1);
            lemma_minmax_coord(points@, 2);
            assert forall|k: int| 0 <= k < points@.len() implies b.contains_point(
                #[trigger] points@[k],
            ) by {
                assert(coord(points@[k], 0) == points@[k].x);
                assert(coord(points@[k], 1) == points@[k].y);
                assert(coord(points@[k], 2) == points@[k].z);
            }
        }
        b
    }

    /// Conservative cube-versus-cube classification used to prune
    /// subtrees during range queries.
    pub fn intersection(&self, other: &Boundary) -> (r: Interaction)
        requires
            self.bounded(),
            other.bounded(),
        ensures
            r == self.interaction_spec(*other),
    {
        let dx = abs_i64(self.center.x - other.center.x);
        let dy = abs_i64(self.center.y - other.center.y);
        let dz = abs_i64(self.center.z - other.center.z);

        // Treat the two regions as cubes: if any component exceeds the sum
        // of the half-sides, they cannot touch.
        let side_sum = self.h_side + other.h_side;
        if dx > side_sum || dy > side_sum || dz > side_sum {
            return Interaction::Disjoint;
        }
        let side_diff = abs_i64(other.h_side - self.h_side);
        if dx <= side_diff && dy <= side_diff && dz <= side_diff {
            if other.h_side > self.h_side {
                return Interaction::Within;
            }
            return Interaction::Contains;
        }
        Interaction::Overlap
    }
}

/// Absolute value on `i64`, for inputs away from the extreme minimum.
fn abs_i64(a: i64) -> (r: i64)
    requires
        i64::MIN < a,
    ensures
        r == abs(a as int),
{
    if a < 0 {
        -a
    } else {
        a
    }
}

/// Swapping the operands of the region classification preserves
/// `Disjoint` and `Overlap` and turns `Within` into `Contains`.  The
/// reverse of the last clause needs distinct half-sides: two coincident
/// cubes of equal half-side classify as `Contains` from both sides.
pub proof fn lemma_intersection_symmetry(a: Boundary, b: Boundary)
    ensures
        a.interaction_spec(b) == Interaction::Disjoint <==> b.interaction_spec(a)
            == Interaction::Disjoint,
        a.interaction_spec(b) == Interaction::Overlap <==> b.interaction_spec(a)
            == Interaction::Overlap,
        a.interaction_spec(b) == Interaction::Within ==> b.interaction_spec(a)
            == Interaction::Contains,
        a.h_side != b.h_side ==> (a.interaction_spec(b) == Interaction::Within <==> b
            .interaction_spec(a) == Interaction::Contains),
{
}

/// One cube lies entirely inside another.
pub open spec fn cube_within(inner: Boundary, outer: Boundary) -> bool {
    &&& outer.center.x - outer.h_side <= inner.center.x - inner.h_side
    &&& inner.center.x + inner.h_side <= outer.center.x + outer.h_side
    &&& outer.center.y - outer.h_side <= inner.center.y - inner.h_side
    &&& inner.center.y + inner.h_side <= outer.center.y + outer.h_side
    &&& outer.center.z - outer.h_side <= inner.center.z - inner.h_side
    &&& inner.center.z + inner.h_side <= outer.center.z + outer.h_side
}

/// The 3-bit octant code of `p` relative to center `c`: bit 0 set iff
/// `p.x >= c.x`, bit 1 for y, bit 2 for z.
pub open spec fn octant_spec(p: Vec3, c: Vec3) -> int {
    (if p.x >= c.x {
        1int
    } else {
        0int
    }) + (if p.y >= c.y {
        2int
    } else {
        0int
    }) + (if p.z >= c.z {
        4int
    } else {
        0int
    })
}

/// The boundary a child node gets: half-side halved (rounded up, so the
/// eight children cover the parent exactly) and the center offset by the
/// rounded-down half along each axis, with the sign taken from the octant
/// code's bits.
pub open spec fn is_child_boundary(cb: Boundary, b: Boundary, code: int) -> bool {
    &&& cb.h_side == b.h_side - b.h_side / 2
    &&& cb.center.x == if code % 2 == 1 {
        b.center.x + b.h_side / 2
    } else {
        b.center.x - b.h_side / 2
    }
    &&& cb.center.y == if (code / 2) % 2 == 1 {
        b.center.y + b.h_side / 2
    } else {
        b.center.y - b.h_side / 2
    }
    &&& cb.center.z == if (code / 4) % 2 == 1 {
        b.center.z + b.h_side / 2
    } else {
        b.center.z - b.h_side / 2
    }
}

/// Computes the octant code of `p` relative to `c`.
fn octant(c: &Vec3, p: &Vec3) -> (code: usize)
    ensures
        code == octant_spec(*p, *c),
        code < 8,
{
    let mut code: usize = 0;
    if p.x >= c.x {
        code = code + 1;
    }
    if p.y >= c.y {
        code = code + 2;
    }
    if p.z >= c.z {
        code = code + 4;
    }
    code
}

/// Builds the boundary of the child for `code` inside `b`.
fn child_boundary(b: &Boundary, code: usize) -> (cb: Boundary)
    requires
        b.bounded(),
        code < 8,
    ensures
        is_child_boundary(cb, *b, code as int),
        cb.bounded(),
        cube_within(cb, *b),
{
    let off = b.h_side / 2;
    let half = b.h_side - off;
    let x = if code % 2 == 1 {
        b.center.x + off
    } else {
        b.center.x - off
    };
    let y = if (code / 2) % 2 == 1 {
        b.center.y + off
    } else {
        b.center.y - off
    };
    let z = if (code / 4) % 2 == 1 {
        b.center.z + off
    } else {
        b.center.z - off
    };
    Boundary { center: Vec3 { x, y, z }, h_side: half }
}

/// A point of a cube falls, under its octant code, into a child cube that
/// still contains it.
proof fn lemma_octant_child_contains(b: Boundary, cb: Boundary, p: Vec3)
    requires
        b.bounded(),
        b.contains_point(p),
        is_child_boundary(cb, b, octant_spec(p, b.center)),
    ensures
        cb.contains_point(p),
{
    let code = octant_spec(p, b.center);
    assert(code % 2 == 1 <==> p.x >= b.center.x);
    assert((code / 2) % 2 == 1 <==> p.y >= b.center.y);
    assert((code / 4) % 2 == 1 <==> p.z >= b.center.z);
}

/// One node of the spatial partition tree: up to eight children, a
/// bounding region, and — at leaves — the indices of the points it holds.
struct Octnode {
    children: Vec<Option<Octnode>>,
    boundary: Boundary,
    point_indices: Vec<usize>,
}

impl Octnode {
    /// Whether any child slot is filled.
    spec fn has_child(self) -> bool {
        exists|i: int| 0 <= i < 8 && self.children@[i] is Some
    }

    /// The child slot, with its invariants, relative to the owning node.
    spec fn child_ok(o: Option<Octnode>, outer: Boundary, points: Seq<Vec3>) -> bool
        decreases o, 1int, 0int,
    {
        match o {
            None => true,
            Some(c) => cube_within(c.boundary, outer) && c.wf(points),
        }
    }

    /// All child slots below `i` satisfy their invariants.
    spec fn children_ok_upto(
        cs: Seq<Option<Octnode>>,
        outer: Boundary,
        points: Seq<Vec3>,
        i: int,
    ) -> bool
        decreases cs, 0int, i,
    {
        if i <= 0 || i > cs.len() {
            true
        } else {
            Self::children_ok_upto(cs, outer, points, i - 1) && Self::child_ok(
                cs[i - 1],
                outer,
                points,
            )
        }
    }

    /// Well-formedness: eight child slots, a bounded boundary, every held
    /// index valid and its point inside the boundary, indices only at
    /// leaves, and every child a well-formed node whose cube nests inside
    /// this one's.
    spec fn wf(self, points: Seq<Vec3>) -> bool
        decreases self, 2int, 0int,
    {
        &&& self.children@.len() == 8
        &&& self.boundary.bounded()
        &&& (forall|k: int|
            0 <= k < self.point_indices@.len() ==> (self.point_indices@[k] as int) < points.len()
                && self.boundary.contains_point(points[self.point_indices@[k] as int]))
        &&& (self.has_child() ==> self.point_indices@.len() == 0)
        &&& Self::children_ok_upto(self.children@, self.boundary, points, 8)
    }

    /// The indices held in a child slot's subtree.
    spec fn child_sub(o: Option<Octnode>) -> Seq<usize>
        decreases o, 1int, 0int,
    {
        match o {
            None => Seq::empty(),
            Some(c) => c.subtree(),
        }
    }

    /// The indices held in the subtrees of the child slots below `i`,
    /// concatenated in slot order.
    spec fn subtree_upto(cs: Seq<Option<Octnode>>, i: int) -> Seq<usize>
        decreases cs, 0int, i,
    {
        if i <= 0 || i > cs.len() {
            Seq::empty()
        } else {
            Self::subtree_upto(cs, i - 1) + Self::child_sub(cs[i - 1])
        }
    }

    /// All point indices held in this node's subtree, in traversal order:
    /// the node's own, then each child's in slot order.
    spec fn subtree(self) -> Seq<usize>
        decreases self, 2int, 0int,
    {
        self.point_indices@ + Self::subtree_upto(self.children@, 8)
    }

    /// Unfolds `children_ok_upto` down to one slot.
    proof fn lemma_children_ok_at(
        cs: Seq<Option<Octnode>>,
        outer: Boundary,
        points: Seq<Vec3>,
        i: int,
        j: int,
    )
        requires
            Self::children_ok_upto(cs, outer, points, i),
            0 <= j < i <= cs.len(),
        ensures
            Self::child_ok(cs[j], outer, points),
        decreases i,
    {
        if j < i - 1 {
            Self::lemma_children_ok_at(cs, outer, points, i - 1, j);
        }
    }

    /// Membership in the concatenated child subtrees means membership in
    /// one child's subtree.
    proof fn lemma_subtree_upto_contains(cs: Seq<Option<Octnode>>, i: int, x: usize)
        requires
            0 <= i <= cs.len(),
        ensures
            Self::subtree_upto(cs, i).contains(x) <==> exists|j: int|
                0 <= j < i && cs[j] is Some && (#[trigger] cs[j])->0.subtree().contains(x),
        decreases i,
    {
        if i > 0 {
            Self::lemma_subtree_upto_contains(cs, i - 1, x);
            let pre = Self::subtree_upto(cs, i - 1);
            let last = Self::child_sub(cs[i - 1]);
            assert forall|t: int| 0 <= t < pre.len() implies (pre + last)[t] == pre[t] by {}
            assert forall|t: int| 0 <= t < last.len() implies (pre + last)[pre.len() + t]
                == last[t] by {}
            if (pre + last).contains(x) {
                let t = choose|t: int| 0 <= t < (pre + last).len() && (pre + last)[t] == x;
                if t < pre.len() {
                    assert(pre.contains(x));
                } else {
                    assert(last[t - pre.len()] == x);
                    assert(last.contains(x));
                }
            }
            if pre.contains(x) {
                let t = choose|t: int| 0 <= t < pre.len() && pre[t] == x;
                assert((pre + last)[t] == x);
                assert((pre + last).contains(x));
            }
            if last.contains(x) {
                let t = choose|t: int| 0 <= t < last.len() && last[t] == x;
                assert((pre + last)[pre.len() + t] == x);
                assert((pre + last).contains(x));
            }
        }
    }

    /// Every index in a well-formed subtree is a valid point index whose
    /// point lies inside the node's boundary.
    proof fn lemma_subtree_in_boundary(n: Octnode, points: Seq<Vec3>)
        requires
            n.wf(points),
        ensures
            forall|x: usize|
                #[trigger] n.subtree().contains(x) ==> (x as int) < points.len()
                    && n.boundary.contains_point(points[x as int]),
        decreases n,
    {
        let cs = n.children@;
        let pi = n.point_indices@;
        let rest = Self::subtree_upto(cs, 8);
        assert forall|x: usize| #[trigger] n.subtree().contains(x) implies (x as int)
            < points.len() && n.boundary.contains_point(points[x as int]) by {
            let t = choose|t: int| 0 <= t < n.subtree().len() && n.subtree()[t] == x;
            if t < pi.len() {
                assert(pi[t] == x);
            } else {
                assert(rest[t - pi.len()] == x);
                assert(rest.contains(x));
                Self::lemma_subtree_upto_contains(cs, 8, x);
                let j = choose|j: int| 0 <= j < 8 && cs[j] is Some && (#[trigger] cs[j])
                    ->0.subtree().contains(x);
                Self::lemma_children_ok_at(cs, n.boundary, points, 8, j);
                let c = cs[j]->0;
                Self::lemma_subtree_in_boundary(c, points);
            }
        }
    }

    /// What one child slot contributes to a range query.
    spec fn opt_collected(o: Option<Octnode>, query: Boundary) -> Seq<usize>
        decreases o, 1int, 0int,
    {
        match o {
            None => Seq::empty(),
            Some(c) => c.collected(query),
        }
    }

    /// What the child slots below `i` contribute to a range query,
    /// concatenated in slot order.
    spec fn collected_upto(cs: Seq<Option<Octnode>>, query: Boundary, i: int) -> Seq<usize>
        decreases cs, 0int, i,
    {
        if i <= 0 || i > cs.len() {
            Seq::empty()
        } else {
            Self::collected_upto(cs, query, i - 1) + Self::opt_collected(cs[i - 1], query)
        }
    }

    /// Exactly what a range query for `query` appends from this subtree:
    /// nothing when the node's boundary is disjoint from the query cube,
    /// else the node's own indices followed by each child's contribution
    /// in slot order.
    spec fn collected(self, query: Boundary) -> Seq<usize>
        decreases self, 2int, 0int,
    {
        if self.boundary.interaction_spec(query) == Interaction::Disjoint {
            Seq::empty()
        } else {
            self.point_indices@ + Self::collected_upto(self.children@, query, 8)
        }
    }

    /// Membership in the concatenated child contributions means
    /// membership in one child's contribution.
    proof fn lemma_collected_upto_contains(
        cs: Seq<Option<Octnode>>,
        query: Boundary,
        i: int,
        x: usize,
    )
        requires
            0 <= i <= cs.len(),
        ensures
            Self::collected_upto(cs, query, i).contains(x) <==> exists|j: int|
                0 <= j < i && cs[j] is Some && (#[trigger] cs[j])->0.collected(query).contains(x),
        decreases i,
    {
        if i > 0 {
            Self::lemma_collected_upto_contains(cs, query, i - 1, x);
            let pre = Self::collected_upto(cs, query, i - 1);
            let last = Self::opt_collected(cs[i - 1], query);
            assert forall|t: int| 0 <= t < pre.len() implies (pre + last)[t] == pre[t] by {}
            assert forall|t: int| 0 <= t < last.len() implies (pre + last)[pre.len() + t]
                == last[t] by {}
            if (pre + last).contains(x) {
                let t = choose|t: int| 0 <= t < (pre + last).len() && (pre + last)[t] == x;
                if t < pre.len() {
                    assert(pre.contains(x));
                } else {
                    assert(last[t - pre.len()] == x);
                    assert(last.contains(x));
                }
            }
            if pre.contains(x) {
                let t = choose|t: int| 0 <= t < pre.len() && pre[t] == x;
                assert((pre + last)[t] == x);
                assert((pre + last).contains(x));
            }
            if last.contains(x) {
                let t = choose|t: int| 0 <= t < last.len() && last[t] == x;
                assert((pre + last)[pre.len() + t] == x);
                assert((pre + last).contains(x));
            }
        }
    }

    /// A query appends each subtree index at most as often as the
    /// subtree holds it.
    proof fn lemma_collected_le_subtree(n: Octnode, query: Boundary)
        ensures
            forall|x: usize|
                #[trigger] n.collected(query).to_multiset().count(x)
                    <= n.subtree().to_multiset().count(x),
        decreases n, 2int, 0int,
    {
        if n.boundary.interaction_spec(query) == Interaction::Disjoint {
            assert forall|x: usize|
                #[trigger] n.collected(query).to_multiset().count(x)
                    <= n.subtree().to_multiset().count(x) by {
                assert(n.collected(query).to_multiset().len() == 0);
            }
        } else {
            Self::lemma_collected_upto_le(n.children@, query, 8);
            let pi = n.point_indices@;
            assert((pi + Self::collected_upto(n.children@, query, 8)).to_multiset()
                == pi.to_multiset().add(
                Self::collected_upto(n.children@, query, 8).to_multiset(),
            ));
            assert((pi + Self::subtree_upto(n.children@, 8)).to_multiset() == pi.to_multiset().add(
                Self::subtree_upto(n.children@, 8).to_multiset(),
            ));
        }
    }

    /// As the previous lemma, slot sequence by slot sequence.
    proof fn lemma_collected_upto_le(cs: Seq<Option<Octnode>>, query: Boundary, i: int)
        ensures
            forall|x: usize|
                #[trigger] Self::collected_upto(cs, query, i).to_multiset().count(x)
                    <= Self::subtree_upto(cs, i).to_multiset().count(x),
        decreases cs, 0int, i,
    {
        if 0 < i <= cs.len() {
            Self::lemma_collected_upto_le(cs, query, i - 1);
            match cs[i - 1] {
                None => {},
                Some(c) => {
                    Self::lemma_collected_le_subtree(c, query);
                },
            }
            assert((Self::collected_upto(cs, query, i - 1) + Self::opt_collected(
                cs[i - 1],
                query,
            )).to_multiset() == Self::collected_upto(cs, query, i - 1).to_multiset().add(
                Self::opt_collected(cs[i - 1], query).to_multiset(),
            ));
            assert((Self::subtree_upto(cs, i - 1) + Self::child_sub(cs[i - 1])).to_multiset()
                == Self::subtree_upto(cs, i - 1).to_multiset().add(
                Self::child_sub(cs[i - 1]).to_multiset(),
            ));
            assert forall|x: usize|
                #[trigger] Self::collected_upto(cs, query, i).to_multiset().count(x)
                    <= Self::subtree_upto(cs, i).to_multiset().count(x) by {
                match cs[i - 1] {
                    None => {
                        assert(Self::opt_collected(cs[i - 1], query).to_multiset().len() == 0);
                        assert(Self::child_sub(cs[i - 1]).to_multiset().len() == 0);
                    },
                    Some(c) => {
                        assert(cs[i - 1] is Some);
                        assert(Self::opt_collected(cs[i - 1], query) == c.collected(query));
                        assert(Self::child_sub(cs[i - 1]) == c.subtree());
                        assert(c.collected(query).to_multiset().count(x)
                            <= c.subtree().to_multiset().count(x));
                    },
                }
            }
        } else {
            assert forall|x: usize|
                #[trigger] Self::collected_upto(cs, query, i).to_multiset().count(x)
                    <= Self::subtree_upto(cs, i).to_multiset().count(x) by {
                assert(Self::collected_upto(cs, query, i).to_multiset().len() == 0);
            }
        }
    }

    /// A query misses no subtree index whose point lies inside the
    /// query cube.
    proof fn lemma_collected_covers(n: Octnode, points: Seq<Vec3>, query: Boundary)
        requires
            n.wf(points),
        ensures
            forall|x: usize|
                #[trigger] n.subtree().contains(x) && query.contains_point(points[x as int])
                    ==> n.collected(query).contains(x),
        decreases n,
    {
        let cs = n.children@;
        let pi = n.point_indices@;
        if n.boundary.interaction_spec(query) == Interaction::Disjoint {
            Self::lemma_subtree_in_boundary(n, points);
            assert forall|x: usize|
                #[trigger] n.subtree().contains(x) && query.contains_point(
                    points[x as int],
                ) implies n.collected(query).contains(x) by {
                let p = points[x as int];
                assert(n.boundary.contains_point(p));
                assert(false);
            }
        } else {
            let upto = Self::collected_upto(cs, query, 8);
            assert forall|x: usize|
                #[trigger] n.subtree().contains(x) && query.contains_point(
                    points[x as int],
                ) implies n.collected(query).contains(x) by {
                let t = choose|t: int| 0 <= t < n.subtree().len() && n.subtree()[t] == x;
                if t < pi.len() {
                    assert(pi[t] == x);
                    assert((pi + upto)[t] == x);
                    assert(n.collected(query).contains(x));
                } else {
                    assert(Self::subtree_upto(cs, 8)[t - pi.len()] == x);
                    assert(Self::subtree_upto(cs, 8).contains(x));
                    Self::lemma_subtree_upto_contains(cs, 8, x);
                    let j = choose|j: int| 0 <= j < 8 && cs[j] is Some && (#[trigger] cs[j])
                        ->0.subtree().contains(x);
                    Self::lemma_children_ok_at(cs, n.boundary, points, 8, j);
                    let c = cs[j]->0;
                    Self::lemma_collected_covers(c, points, query);
                    assert(c.collected(query).contains(x));
                    Self::lemma_collected_upto_contains(cs, query, 8, x);
                    assert(upto.contains(x));
                    let u = choose|u: int| 0 <= u < upto.len() && upto[u] == x;
                    assert((pi + upto)[pi.len() + u] == x);
                    assert(n.collected(query).contains(x));
                }
            }
        }
    }
}

/// The subsequence of `s` whose points classify into octant `code`
/// relative to `center`.
spec fn octant_filter(s: Seq<usize>, points: Seq<Vec3>, center: Vec3, code: int) -> Seq<usize>
    decreases s.len(),
{
    if s.len() == 0 {
        Seq::empty()
    } else {
        octant_filter(s.drop_last(), points, center, code) + (if octant_spec(
            points[s.last() as int],
            center,
        ) == code {
            seq![s.last()]
        } else {
            Seq::empty()
        })
    }
}

/// The multisets of the octant buckets below `upto`, combined.
spec fn octant_filter_msum(s: Seq<usize>, points: Seq<Vec3>, center: Vec3, upto: int) -> Multiset<
    usize,
>
    decreases upto,
{
    if upto <= 0 {
        Multiset::empty()
    } else {
        octant_filter_msum(s, points, center, upto - 1).add(
            octant_filter(s, points, center, upto - 1).to_multiset(),
        )
    }
}

/// Every element of a bucket comes from `s` and classifies into the
/// bucket's octant.
proof fn lemma_octant_filter_elems(s: Seq<usize>, points: Seq<Vec3>, center: Vec3, code: int)
    ensures
        forall|t: int|
            0 <= t < octant_filter(s, points, center, code).len() ==> s.contains(
                #[trigger] octant_filter(s, points, center, code)[t],
            ) && octant_spec(points[octant_filter(s, points, center, code)[t] as int], center)
                == code,
    decreases s.len(),
{
    if s.len() > 0 {
        lemma_octant_filter_elems(s.drop_last(), points, center, code);
        let f = octant_filter(s, points, center, code);
        let fp = octant_filter(s.drop_last(), points, center, code);
        assert forall|t: int| 0 <= t < f.len() implies s.contains(#[trigger] f[t]) && octant_spec(
            points[f[t] as int],
            center,
        ) == code by {
            if t < fp.len() {
                assert(f[t] == fp[t]);
                assert(s.drop_last().contains(fp[t]));
                let u = choose|u: int| 0 <= u < s.drop_last().len() && s.drop_last()[u] == fp[t];
                assert(s[u] == fp[t]);
            } else {
                assert(f[t] == s.last());
                assert(s[s.len() - 1] == s.last());
            }
        }
    }
}

/// Combined bucket multisets of a one-longer sequence: the new last
/// element joins exactly when its octant lies below `upto`.
proof fn lemma_octant_msum_step(s: Seq<usize>, points: Seq<Vec3>, center: Vec3, upto: int)
    requires
        s.len() > 0,
    ensures
        octant_filter_msum(s, points, center, upto) =~= octant_filter_msum(
            s.drop_last(),
            points,
            center,
            upto,
        ).add(
            if 0 <= octant_spec(points[s.last() as int], center) < upto {
                Multiset::singleton(s.last())
            } else {
                Multiset::empty()
            },
        ),
    decreases upto,
{
    if upto > 0 {
        lemma_octant_msum_step(s, points, center, upto - 1);
        let f = octant_filter(s, points, center, upto - 1);
        let fp = octant_filter(s.drop_last(), points, center, upto - 1);
        if octant_spec(points[s.last() as int], center) == upto - 1 {
            assert(seq![s.last()] =~= Seq::<usize>::empty().push(s.last()));
            assert(seq![s.last()].to_multiset() =~= Multiset::singleton(s.last()));
            assert(f.to_multiset() =~= fp.to_multiset().add(Multiset::singleton(s.last())));
        } else {
            assert(f =~= fp + Seq::<usize>::empty());
            assert(f =~= fp);
        }
    }
}

/// The eight octant buckets of `s` partition it: their multisets combine
/// to the multiset of `s`.
proof fn lemma_octant_partition(s: Seq<usize>, points: Seq<Vec3>, center: Vec3)
    ensures
        octant_filter_msum(s, points, center, 8) =~= s.to_multiset(),
    decreases s.len(),
{
    if s.len() == 0 {
        assert forall|u: int| 0 <= u <= 8 implies octant_filter_msum(s, points, center, u)
            =~= Multiset::<usize>::empty() by {
            lemma_octant_msum_empty(s, points, center, u);
        }
    } else {
        lemma_octant_partition(s.drop_last(), points, center);
        lemma_octant_msum_step(s, points, center, 8);
        assert(0 <= octant_spec(points[s.last() as int], center) < 8);
        assert(s =~= s.drop_last().push(s.last()));
        assert(s.drop_last().push(s.last()).to_multiset() =~= s.drop_last().to_multiset().insert(
            s.last(),
        ));
        assert(s.drop_last().to_multiset().add(Multiset::singleton(s.last())) =~= s
            .drop_last()
            .to_multiset()
            .insert(s.last()));
    }
}

/// Bucket sums over the empty sequence are empty.
proof fn lemma_octant_msum_empty(s: Seq<usize>, points: Seq<Vec3>, center: Vec3, upto: int)
    requires
        s.len() == 0,
    ensures
        octant_filter_msum(s, points, center, upto) =~= Multiset::<usize>::empty(),
    decreases upto,
{
    if upto > 0 {
        lemma_octant_msum_empty(s, points, center, upto - 1);
    }
}

/// Collects, in order, the indices of `indices` whose points classify
/// into octant `code` relative to `center`.
fn collect_octant(indices: &Vec<usize>, points: &Vec<Vec3>, center: Vec3, code: usize) -> (r: Vec<
    usize,
>)
    requires
        code < 8,
        forall|k: int| 0 <= k < indices@.len() ==> (indices@[k] as int) < points@.len(),
    ensures
        r@ == octant_filter(indices@, points@, center, code as int),
{
    let mut r: Vec<usize> = Vec::new();
    let mut t: usize = 0;
    while t < indices.len()
        invariant
            t <= indices@.len(),
            code < 8,
            forall|k: int| 0 <= k < indices@.len() ==> (indices@[k] as int) < points@.len(),
            r@ == octant_filter(indices@.take(t as int), points@, center, code as int),
        decreases indices@.len() - t,
    {
        let idx = indices[t];
        let c = octant(&center, &points[idx]);
        proof {
            assert(indices@.take(t + 1).drop_last() =~= indices@.take(t as int));
            assert(indices@.take(t + 1).last() == indices@[t as int]);
        }
        if c == code {
            r.push(idx);
            proof {
                assert(r@ =~= octant_filter(indices@.take(t + 1), points@, center, code as int));
            }
        } else {
            proof {
                assert(r@ =~= octant_filter(indices@.take(t + 1), points@, center, code as int));
            }
        }
        t = t + 1;
    }
    proof {
        assert(indices@.take(indices@.len() as int) =~= indices@);
    }
    r
}

impl Octnode {
    /// A slot sequence of `None`s satisfies the child invariants and holds
    /// no indices.
    proof fn lemma_all_none(cs: Seq<Option<Octnode>>, outer: Boundary, points: Seq<Vec3>, i: int)
        requires
            forall|j: int| 0 <= j < cs.len() ==> cs[j] is None,
        ensures
            Self::children_ok_upto(cs, outer, points, i),
            Self::subtree_upto(cs, i) =~= Seq::<usize>::empty(),
        decreases i,
    {
        if 0 < i <= cs.len() {
            Self::lemma_all_none(cs, outer, points, i - 1);
            assert(cs[i - 1] is None);
            assert(Self::child_ok(cs[i - 1], outer, points));
            assert(Self::child_sub(cs[i - 1]) =~= Seq::<usize>::empty());
            assert(Self::subtree_upto(cs, i) =~= Seq::<usize>::empty());
        }
    }

    /// Pushing a new slot leaves the invariants and contents of the
    /// existing slots unchanged.
    proof fn lemma_upto_push_stable(
        cs: Seq<Option<Octnode>>,
        x: Option<Octnode>,
        outer: Boundary,
        points: Seq<Vec3>,
        i: int,
    )
        requires
            0 <= i <= cs.len(),
        ensures
            Self::children_ok_upto(cs.push(x), outer, points, i) == Self::children_ok_upto(
                cs,
                outer,
                points,
                i,
            ),
            Self::subtree_upto(cs.push(x), i) == Self::subtree_upto(cs, i),
        decreases i,
    {
        if i > 0 {
            Self::lemma_upto_push_stable(cs, x, outer, points, i - 1);
            assert(cs.push(x)[i - 1] == cs[i - 1]);
        }
    }

    /// Recursively partitions `indices` into a tree rooted at `boundary`.
    /// Small or depth-capped index sets become leaves holding their
    /// indices verbatim; otherwise the indices are split by octant and
    /// each non-empty bucket becomes a child.  The tree holds exactly the
    /// indices handed in.
    fn build(
        indices: Vec<usize>,
        boundary: Boundary,
        points: &Vec<Vec3>,
        threshold: usize,
        maximum_depth: usize,
        current_depth: usize,
    ) -> (node: Octnode)
        requires
            boundary.bounded(),
            forall|k: int|
                0 <= k < indices@.len() ==> (indices@[k] as int) < points@.len()
                    && boundary.contains_point(points@[indices@[k] as int]),
        ensures
            node.wf(points@),
            node.boundary == boundary,
            node.subtree().to_multiset() == indices@.to_multiset(),
            (indices@.len() <= threshold || current_depth >= maximum_depth)
                ==> node.point_indices@ == indices@,
            (indices@.len() <= threshold || current_depth >= maximum_depth) ==> forall|i: int|
                0 <= i < 8 ==> (#[trigger] node.children@[i]) is None,
            (indices@.len() > threshold && current_depth < maximum_depth)
                ==> node.point_indices@.len() == 0,
            (indices@.len() > threshold && current_depth < maximum_depth) ==> forall|code: int|
                0 <= code < 8 ==> (((#[trigger] node.children@[code]) is Some) <==> octant_filter(
                    indices@,
                    points@,
                    boundary.center,
                    code,
                ).len() > 0),
            (indices@.len() > threshold && current_depth < maximum_depth) ==> forall|code: int|
                0 <= code < 8 && node.children@[code] is Some ==> is_child_boundary(
                    (#[trigger] node.children@[code])->0.boundary,
                    boundary,
                    code,
                ),
            (indices@.len() > threshold && current_depth < maximum_depth) ==> forall|code: int|
                0 <= code < 8 && node.children@[code] is Some
                    ==> (#[trigger] node.children@[code])->0.subtree().to_multiset()
                    == octant_filter(indices@, points@, boundary.center, code).to_multiset(),
        decreases maximum_depth - current_depth,
    {
        let count = indices.len();
        if count <= threshold || current_depth >= maximum_depth {
            // This node is a leaf: it keeps the indices as they are.
            let mut children: Vec<Option<Octnode>> = Vec::new();
            let mut j: usize = 0;
            while j < 8
                invariant
                    j <= 8,
                    children@.len() == j as int,
                    forall|t: int| 0 <= t < children@.len() ==> children@[t] is None,
                decreases 8 - j,
            {
                children.push(None);
                j = j + 1;
            }
            let node = Octnode { children, boundary, point_indices: indices };
            proof {
                Self::lemma_all_none(node.children@, boundary, points@, 8);
                assert(!node.has_child());
                assert(node.subtree() =~= node.point_indices@);
            }
            return node;
        }
        let center = boundary.center;
        let ghost pts = points@;
        let mut children: Vec<Option<Octnode>> = Vec::new();
        let mut code: usize = 0;
        while code < 8
            invariant
                code <= 8,
                children@.len() == code as int,
                boundary.bounded(),
                pts == points@,
                forall|k: int|
                    0 <= k < indices@.len() ==> (indices@[k] as int) < points@.len()
                        && boundary.contains_point(points@[indices@[k] as int]),
                center == boundary.center,
                maximum_depth - current_depth >= 1,
                Self::children_ok_upto(children@, boundary, pts, code as int),
                Self::subtree_upto(children@, code as int).to_multiset() == octant_filter_msum(
                    indices@,
                    pts,
                    center,
                    code as int,
                ),
                forall|j: int|
                    0 <= j < code as int ==> (((#[trigger] children@[j]) is Some)
                        <==> octant_filter(indices@, pts, center, j).len() > 0),
                forall|j: int|
                    0 <= j < code as int && children@[j] is Some ==> is_child_boundary(
                        (#[trigger] children@[j])->0.boundary,
                        boundary,
                        j,
                    ),
                forall|j: int|
                    0 <= j < code as int && children@[j] is Some
                        ==> (#[trigger] children@[j])->0.subtree().to_multiset() == octant_filter(
                        indices@,
                        pts,
                        center,
                        j,
                    ).to_multiset(),
            decreases 8 - code,
        {
            let bucket = collect_octant(&indices, points, center, code);
            let ghost old_children = children@;
            let ghost bucket_view = bucket@;
            proof {
                lemma_octant_filter_elems(indices@, pts, center, code as int);
            }
            if bucket.len() == 0 {
                children.push(None);
                proof {
                    Self::lemma_upto_push_stable(old_children, None, boundary, pts, code as int);
                    assert(children@[code as int] is None);
                    assert(Self::child_ok(children@[code as int], boundary, pts));
                    assert(Self::children_ok_upto(children@, boundary, pts, code + 1));
                    assert(Self::subtree_upto(children@, code + 1) =~= Self::subtree_upto(
                        old_children,
                        code as int,
                    ) + Self::child_sub(None));
                    assert(Self::subtree_upto(children@, code + 1) =~= Self::subtree_upto(
                        old_children,
                        code as int,
                    ));
                    assert(bucket_view.to_multiset() =~= Multiset::<usize>::empty());
                    assert(Self::subtree_upto(children@, code + 1).to_multiset()
                        == octant_filter_msum(indices@, pts, center, code + 1));
                }
            } else {
                let cb = child_boundary(&boundary, code);
                proof {
                    assert forall|t: int| 0 <= t < bucket_view.len() implies (bucket_view[t] as int)
                        < pts.len() && cb.contains_point(pts[bucket_view[t] as int]) by {
                        let x = bucket_view[t];
                        assert(indices@.contains(x));
                        let u = choose|u: int| 0 <= u < indices@.len() && indices@[u] == x;
                        lemma_octant_child_contains(boundary, cb, pts[x as int]);
                    }
                }
                let child = Self::build(
                    bucket,
                    cb,
                    points,
                    threshold,
                    maximum_depth,
                    current_depth + 1,
                );
                children.push(Some(child));
                proof {
                    Self::lemma_upto_push_stable(
                        old_children,
                        Some(child),
                        boundary,
                        pts,
                        code as int,
                    );
                    assert(children@[code as int] == Some(child));
                    assert(cube_within(child.boundary, boundary));
                    assert(child.wf(pts));
                    assert(Self::child_ok(children@[code as int], boundary, pts));
                    assert(Self::children_ok_upto(children@, boundary, pts, code + 1));
                    assert(Self::child_sub(children@[code as int]) == child.subtree());
                    assert(Self::subtree_upto(children@, code + 1) =~= Self::subtree_upto(
                        old_children,
                        code as int,
                    ) + child.subtree());
                    assert(Self::subtree_upto(children@, code + 1).to_multiset()
                        =~= Self::subtree_upto(old_children, code as int).to_multiset().add(
                        child.subtree().to_multiset(),
                    ));
                    assert(Self::subtree_upto(children@, code + 1).to_multiset()
                        == octant_filter_msum(indices@, pts, center, code + 1));
                }
            }
            code = code + 1;
        }
        let node = Octnode { children, boundary, point_indices: Vec::new() };
        proof {
            lemma_octant_partition(indices@, pts, center);
            assert(node.subtree() =~= Self::subtree_upto(node.children@, 8));
            assert(node.subtree().to_multiset() == indices@.to_multiset());
        }
        node
    }

    /// Walks the subtree, skipping any subtree whose boundary is disjoint
    /// from `query`, and appends the indices of every visited node to
    /// `result`.  What is appended is exactly `collected`: nothing from a
    /// pruned subtree, else the node's own indices followed by the
    /// children's contributions in octant order.
    fn neighbors(&self, query: &Boundary, result: &mut Vec<usize>, Ghost(points): Ghost<
        Seq<Vec3>,
    >)
        requires
            self.wf(points),
            query.bounded(),
        ensures
            final(result)@ == old(result)@ + self.collected(*query),
        decreases *self,
    {
        let inter = self.boundary.intersection(query);
        if inter == Interaction::Disjoint {
            proof {
                assert(result@ =~= old(result)@ + self.collected(*query));
            }
            return;
        }
        let ghost pi = self.point_indices@;
        let ghost cs = self.children@;
        let mut k: usize = 0;
        while k < self.point_indices.len()
            invariant
                k <= pi.len(),
                pi == self.point_indices@,
                result@ == old(result)@ + pi.take(k as int),
            decreases pi.len() - k,
        {
            result.push(self.point_indices[k]);
            proof {
                assert(pi.take(k + 1) =~= pi.take(k as int).push(pi[k as int]));
                assert(result@ =~= old(result)@ + pi.take(k + 1));
            }
            k = k + 1;
        }
        proof {
            assert(pi.take(pi.len() as int) =~= pi);
            assert(Self::collected_upto(cs, *query, 0) =~= Seq::<usize>::empty());
            assert(result@ =~= old(result)@ + (pi + Self::collected_upto(cs, *query, 0)));
        }
        let mut i: usize = 0;
        while i < 8
            invariant
                i <= 8,
                self.wf(points),
                query.bounded(),
                pi == self.point_indices@,
                cs == self.children@,
                result@ == old(result)@ + (pi + Self::collected_upto(cs, *query, i as int)),
            decreases 8 - i,
        {
            proof {
                assert(cs.len() == 8);
            }
            let ghost col_i = Self::collected_upto(cs, *query, i as int);
            let ghost col_n = Self::collected_upto(cs, *query, i + 1);
            if self.children[i].is_some() {
                let c = self.children[i].as_ref().unwrap();
                proof {
                    Self::lemma_children_ok_at(cs, self.boundary, points, 8, i as int);
                    assert(Self::child_ok(cs[i as int], self.boundary, points));
                    assert(c.wf(points));
                }
                c.neighbors(query, result, Ghost(points));
                proof {
                    assert(cs[i as int] is Some);
                    assert(*c == cs[i as int]->0);
                    assert(Self::opt_collected(cs[i as int], *query) == c.collected(*query));
                    assert(col_n =~= col_i + c.collected(*query));
                    assert(result@ =~= old(result)@ + (pi + col_n));
                }
            } else {
                proof {
                    assert(cs[i as int] is None);
                    assert(Self::opt_collected(cs[i as int], *query) =~= Seq::<usize>::empty());
                    assert(col_n =~= col_i + Self::opt_collected(cs[i as int], *query));
                    assert(col_n =~= col_i);
                    assert(result@ =~= old(result)@ + (pi + col_n));
                }
            }
            i = i + 1;
        }
        proof {
            assert(self.collected(*query) == pi + Self::collected_upto(cs, *query, 8));
        }
    }
}

/// The sequence `0, 1, ..., n-1` of point indices.
pub open spec fn index_seq(n: nat) -> Seq<usize> {
    Seq::new(n, |i: int| i as usize)
}

/// `index_seq(n)` holds each index below `n` exactly once and nothing else.
proof fn lemma_index_seq_multiset(n: nat)
    requires
        n <= usize::MAX,
    ensures
        forall|x: usize|
            #[trigger] index_seq(n).to_multiset().count(x) == if (x as int) < n {
                1nat
            } else {
                0nat
            },
    decreases n,
{
    if n == 0 {
        assert(index_seq(n).len() == 0);
        assert forall|x: usize| #[trigger] index_seq(n).to_multiset().count(x) == 0nat by {
            assert(index_seq(n).to_multiset().len() == 0);
        }
    } else {
        let m = (n - 1) as nat;
        lemma_index_seq_multiset(m);
        assert(index_seq(n) =~= index_seq(m).push((n - 1) as usize));
        assert(index_seq(n).to_multiset() =~= index_seq(m).to_multiset().insert((n - 1) as usize));
        assert forall|x: usize|
            #[trigger] index_seq(n).to_multiset().count(x) == if (x as int) < n {
                1nat
            } else {
                0nat
            } by {
            if x == (n - 1) as usize {
                assert(index_seq(m).to_multiset().count(x) == 0nat);
            } else {
                assert(Multiset::singleton((n - 1) as usize).count(x) == 0nat);
            }
        }
    }
}

/// A sequence whose multiset never counts a value twice has no duplicates.
proof fn lemma_counts_le_one_no_dup(s: Seq<usize>)
    requires
        forall|x: usize| #[trigger] s.to_multiset().count(x) <= 1,
    ensures
        s.no_duplicates(),
{
    assert forall|i: int, j: int|
        0 <= i < s.len() && 0 <= j < s.len() && i != j implies s[i] != s[j] by {
        if s[i] == s[j] {
            let b = if i < j {
                j
            } else {
                i
            };
            let a = if i < j {
                i
            } else {
                j
            };
            let x = s[a];
            assert(s =~= s.take(b) + s.skip(b));
            assert((s.take(b) + s.skip(b)).to_multiset() == s.take(b).to_multiset().add(
                s.skip(b).to_multiset(),
            ));
            assert(s.take(b)[a] == x);
            assert(s.take(b).contains(x));
            assert(s.skip(b)[0] == s[b]);
            assert(s.skip(b).contains(x));
            assert(s.take(b).to_multiset().count(x) > 0);
            assert(s.skip(b).to_multiset().count(x) > 0);
            assert(s.to_multiset().count(x) >= 2);
        }
    }
}

/// A sequence without duplicates counts no value twice.
proof fn lemma_no_dup_counts_le_one(s: Seq<usize>)
    requires
        s.no_duplicates(),
    ensures
        forall|x: usize| #[trigger] s.to_multiset().count(x) <= 1,
    decreases s.len(),
{
    if s.len() > 0 {
        let dl = s.drop_last();
        assert(dl.no_duplicates());
        lemma_no_dup_counts_le_one(dl);
        assert(s =~= dl.push(s.last()));
        assert(s.to_multiset() =~= dl.to_multiset().insert(s.last()));
        assert forall|x: usize| #[trigger] s.to_multiset().count(x) <= 1 by {
            if x == s.last() {
                if dl.contains(x) {
                    let u = choose|u: int| 0 <= u < dl.len() && dl[u] == x;
                    assert(s[u] == s[s.len() - 1]);
                    assert(false);
                }
                assert(dl.to_multiset().count(x) == 0);
            } else {
                assert(Multiset::singleton(s.last()).count(x) == 0);
            }
        }
    }
}

/// The set of index pairs, smaller index first, whose points lie within
/// Euclidean distance `radius` of one another.
pub open spec fn interacting_pairs(points: Seq<Vec3>, radius: int) -> Set<(usize, usize)> {
    Set::new(
        |p: (usize, usize)|
            (p.0 as int) < (p.1 as int) && (p.1 as int) < points.len() && dist_sq(
                points[p.0 as int],
                points[p.1 as int],
            ) < radius * radius,
    )
}

/// Pruning soundness: any coarse candidate set that keeps everything
/// inside the query cube — as the unfiltered `neighbors` does — is a
/// superset of any set of true neighbors within `radius` — as
/// `neighbors_filtered` returns.
pub proof fn lemma_pruning_soundness(
    points: Seq<Vec3>,
    center: Vec3,
    radius: int,
    cands: Seq<usize>,
    filt: Seq<usize>,
)
    requires
        0 <= radius,
        forall|j: usize|
            (j as int) < points.len() && within_chebyshev(points[j as int], center, radius)
                ==> cands.contains(j),
        forall|j: usize|
            #[trigger] filt.contains(j) ==> (j as int) < points.len() && dist_sq(
                points[j as int],
                center,
            ) < radius * radius,
    ensures
        forall|j: usize| #[trigger] filt.contains(j) ==> cands.contains(j),
{
    assert forall|j: usize| #[trigger] filt.contains(j) implies cands.contains(j) by {
        lemma_axis_within(points[j as int], center, radius);
    }
}

/// The spatial index: an octree over a fixed point set, supporting
/// radius-bounded neighbor queries and pairwise interaction enumeration.
pub struct Octree {
    root: Octnode,
    points: Vec<Vec3>,
}

impl View for Octree {
    type V = Seq<Vec3>;

    closed spec fn view(&self) -> Seq<Vec3> {
        self.points@
    }
}

impl Octree {
    /// A built index: the tree is well-formed over the stored points, the
    /// points are in range, and the leaves together hold exactly the
    /// indices `0..n`.
    pub closed spec fn wf(self) -> bool {
        &&& self.points@.len() >= 1
        &&& (forall|i: int| 0 <= i < self.points@.len() ==> (#[trigger] self.points@[i]).in_range())
        &&& self.root.wf(self.points@)
        &&& self.root.subtree().to_multiset() == index_seq(
            self.points@.len() as nat,
        ).to_multiset()
    }

    /// The point indices stored across the leaves, in traversal order.
    pub closed spec fn leaf_indices(self) -> Seq<usize> {
        self.root.subtree()
    }

    /// The exact sequence the cubic range query around `point` with
    /// half-side `radius` returns: the indices of every node not pruned
    /// by the cube test, in pre-order.
    pub closed spec fn candidates(self, point: Vec3, radius: i64) -> Seq<usize> {
        self.root.collected(Boundary { center: point, h_side: radius })
    }

    /// Exhaustive partition: the leaves of a built index together hold
    /// every point index exactly once, and nothing else.
    pub proof fn lemma_exhaustive_partition(self)
        requires
            self.wf(),
        ensures
            forall|x: usize|
                (x as int) < self@.len() ==> #[trigger] self.leaf_indices().to_multiset().count(x)
                    == 1,
            forall|x: usize|
                (x as int) >= self@.len() ==> #[trigger] self.leaf_indices().to_multiset().count(x)
                    == 0,
            self.leaf_indices().no_duplicates(),
    {
        assert(self.points.len() == self.points@.len());
        lemma_index_seq_multiset(self.points@.len() as nat);
        lemma_counts_le_one_no_dup(self.leaf_indices());
    }

    /// Builds the index over all of `points` at once.  `threshold` bounds
    /// the size of a leaf, `maximum_depth` the recursion depth.
    pub fn new(points: Vec<Vec3>, threshold: usize, maximum_depth: usize) -> (t: Octree)
        requires
            points@.len() >= 1,
            forall|i: int| 0 <= i < points@.len() ==> (#[trigger] points@[i]).in_range(),
        ensures
            t.wf(),
            t@ == points@,
    {
        let n = points.len();
        let mut point_indices: Vec<usize> = Vec::new();
        let mut i: usize = 0;
        while i < n
            invariant
                i <= n,
                point_indices@.len() == i as int,
                forall|k: int| 0 <= k < i as int ==> #[trigger] point_indices@[k] == k as usize,
            decreases n - i,
        {
            point_indices.push(i);
            i = i + 1;
        }
        proof {
            assert(point_indices@ =~= index_seq(n as nat));
        }
        let boundary = Boundary::from_points(&points);
        let root = Octnode::build(point_indices, boundary, &points, threshold, maximum_depth, 0);
        Octree { root, points }
    }

    /// Range query with a cubic region of half-side `radius` around
    /// `point`: the candidate sequence of the pruned pre-order walk,
    /// exactly.  It repeats no index, holds only valid indices, and
    /// misses no point within `radius` along every axis — in particular
    /// none within Euclidean distance `radius`.
    pub fn neighbors(&self, point: Vec3, radius: i64) -> (r: Vec<usize>)
        requires
            self.wf(),
            point.in_range(),
            0 <= radius <= COORD_LIMIT,
        ensures
            r@ == self.candidates(point, radius),
            r@.no_duplicates(),
            forall|t: int| 0 <= t < r@.len() ==> ((#[trigger] r@[t]) as int) < self@.len(),
            forall|j: usize|
                (j as int) < self@.len() && within_chebyshev(self@[j as int], point, radius as int)
                    ==> r@.contains(j),
            forall|j: usize|
                (j as int) < self@.len() && dist_sq(self@[j as int], point) < radius * radius
                    ==> r@.contains(j),
    {
        let mut result: Vec<usize> = Vec::new();
        let query = Boundary { center: point, h_side: radius };
        self.root.neighbors(&query, &mut result, Ghost(self.points@));
        proof {
            let n = self.points@.len();
            let sub = self.root.subtree();
            assert(self.points.len() == self.points@.len());
            lemma_index_seq_multiset(n as nat);
            assert(result@ =~= self.root.collected(query));
            Octnode::lemma_collected_le_subtree(self.root, query);
            Octnode::lemma_collected_covers(self.root, self.points@, query);
            assert forall|x: usize| #[trigger] result@.to_multiset().count(x) <= 1 by {
                assert(self.root.collected(query).to_multiset().count(x)
                    <= sub.to_multiset().count(x));
            }
            lemma_counts_le_one_no_dup(result@);
            assert forall|t: int| 0 <= t < result@.len() implies ((#[trigger] result@[t]) as int)
                < n by {
                let x = result@[t];
                assert(result@.contains(x));
                assert(result@.to_multiset().count(x) > 0);
                assert(self.root.collected(query).to_multiset().count(x)
                    <= sub.to_multiset().count(x));
                assert(sub.to_multiset().count(x) > 0);
            }
            assert forall|j: usize|
                (j as int) < n && within_chebyshev(
                    self@[j as int],
                    point,
                    radius as int,
                ) implies result@.contains(j) by {
                assert(sub.to_multiset().count(j) == 1);
                assert(sub.contains(j));
                assert(query.contains_point(self.points@[j as int]));
                assert(self.root.collected(query).contains(j));
            }
            assert forall|j: usize|
                (j as int) < n && dist_sq(self@[j as int], point) < radius
                    * radius implies result@.contains(j) by {
                lemma_axis_within(self@[j as int], point, radius as int);
            }
        }
        result
    }

    /// The exact neighbor query: the indices, without repetition, of
    /// precisely those points whose Euclidean distance to `point` is
    /// strictly below `radius`.
    pub fn neighbors_filtered(&self, point: Vec3, radius: i64) -> (r: Vec<usize>)
        requires
            self.wf(),
            point.in_range(),
            0 <= radius <= COORD_LIMIT,
        ensures
            r@.no_duplicates(),
            forall|j: usize|
                #[trigger] r@.contains(j) <==> ((j as int) < self@.len() && dist_sq(
                    self@[j as int],
                    point,
                ) < radius * radius),
    {
        let cands = self.neighbors(point, radius);
        proof {
            lemma_mul_self_bound(radius as int, COORD_LIMIT as int);
        }
        let rr: i128 = (radius as i128) * (radius as i128);
        let mut r: Vec<usize> = Vec::new();
        let mut t: usize = 0;
        while t < cands.len()
            invariant
                t <= cands@.len(),
                self.wf(),
                point.in_range(),
                0 <= radius <= COORD_LIMIT,
                rr == radius * radius,
                forall|u: int| 0 <= u < cands@.len() ==> ((#[trigger] cands@[u]) as int) < self@.len(),
                cands@.no_duplicates(),
                forall|j: usize|
                    (j as int) < self@.len() && dist_sq(self@[j as int], point) < radius * radius
                        ==> cands@.contains(j),
                forall|j: usize| #[trigger] r@.contains(j) ==> cands@.take(t as int).contains(j),
                forall|j: usize|
                    #[trigger] r@.contains(j) ==> ((j as int) < self@.len() && dist_sq(
                        self@[j as int],
                        point,
                    ) < radius * radius),
                forall|j: usize|
                    cands@.take(t as int).contains(j) && (j as int) < self@.len() && dist_sq(
                        self@[j as int],
                        point,
                    ) < radius * radius ==> #[trigger] r@.contains(j),
                r@.no_duplicates(),
            decreases cands@.len() - t,
        {
            broadcast use vstd::seq_lib::group_seq_properties;

            let idx = cands[t];
            let d = dist_sq_exec(&self.points[idx], &point);
            let ghost r_before = r@;
            if d < rr {
                proof {
                    if r_before.contains(idx) {
                        assert(cands@.take(t as int).contains(idx));
                        let u = choose|u: int|
                            0 <= u < t as int && cands@.take(t as int)[u] == idx;
                        assert(cands@[u] == cands@[t as int]);
                        assert(false);
                    }
                }
                r.push(idx);
            }
            proof {
                assert(cands@.take(t + 1).drop_last() =~= cands@.take(t as int));
                assert(cands@.take(t + 1).last() == cands@[t as int]);
                assert forall|j: usize|
                    cands@.take(t + 1).contains(j) && (j as int) < self@.len() && dist_sq(
                        self@[j as int],
                        point,
                    ) < radius * radius implies #[trigger] r@.contains(j) by {
                    let u = choose|u: int| 0 <= u <= t as int && #[trigger] cands@.take(t + 1)[u] == j;
                    if u < t as int {
                        assert(cands@.take(t as int)[u] == j);
                        assert(cands@.take(t as int).contains(j));
                    } else {
                        assert(j == idx);
                    }
                }
                assert forall|j: usize| #[trigger] r@.contains(j) implies cands@.take(
                    t + 1,
                ).contains(j) by {
                    if r_before.contains(j) {
                        let u = choose|u: int|
                            0 <= u < t as int && cands@.take(t as int)[u] == j;
                        assert(cands@.take(t + 1)[u] == j);
                    } else {
                        assert(j == idx);
                        assert(cands@.take(t + 1)[t as int] == j);
                    }
                }
            }
            t = t + 1;
        }
        proof {
            assert(cands@.take(cands@.len() as int) =~= cands@);
        }
        r
    }

    /// The candidate of the cubic range query closest to `point` by
    /// squared Euclidean distance, ties resolved to the first candidate
    /// in traversal order: `None` exactly when there are no candidates,
    /// else a candidate minimizing the squared distance over all of
    /// them — possibly one at distance `radius` or more, when the cube
    /// caught only such points.  Whenever some point lies strictly
    /// within `radius`, the result is the brute-force minimizer over
    /// those points.
    pub fn closest_neighbor(&self, point: Vec3, radius: i64) -> (r: Option<usize>)
        requires
            self.wf(),
            point.in_range(),
            0 <= radius <= COORD_LIMIT,
        ensures
            r is None <==> self.candidates(point, radius).len() == 0,
            r is Some ==> self.candidates(point, radius).contains(r->0),
            r is Some ==> forall|u: int|
                0 <= u < self.candidates(point, radius).len() ==> dist_sq(
                    self@[r->0 as int],
                    point,
                ) <= dist_sq(self@[(#[trigger] self.candidates(point, radius)[u]) as int], point),
            r is None ==> forall|j: int|
                0 <= j < self@.len() ==> !within_chebyshev(#[trigger] self@[j], point, radius as int),
            r is None ==> forall|j: int|
                0 <= j < self@.len() ==> dist_sq(#[trigger] self@[j], point) >= radius * radius,
            r is Some ==> (r->0 as int) < self@.len(),
            forall|j: int|
                0 <= j < self@.len() && dist_sq(#[trigger] self@[j], point) < radius * radius
                    ==> r is Some && dist_sq(self@[r->0 as int], point) <= dist_sq(self@[j], point)
                    && dist_sq(self@[r->0 as int], point) < radius * radius,
    {
        let cands = self.neighbors(point, radius);
        let mut best: Option<usize> = None;
        let mut best_d: i128 = 0;
        let mut t: usize = 0;
        while t < cands.len()
            invariant
                t <= cands@.len(),
                self.wf(),
                point.in_range(),
                forall|u: int| 0 <= u < cands@.len() ==> ((#[trigger] cands@[u]) as int) < self@.len(),
                best is None <==> t == 0,
                best is Some ==> (best->0 as int) < self@.len() && best_d == dist_sq(
                    self@[best->0 as int],
                    point,
                ) && cands@.take(t as int).contains(best->0) && forall|u: int|
                    0 <= u < t as int ==> best_d <= dist_sq(self@[(#[trigger] cands@[u]) as int], point),
            decreases cands@.len() - t,
        {
            let idx = cands[t];
            let d = dist_sq_exec(&self.points[idx], &point);
            let keep = match best {
                None => false,
                Some(_) => true,
            };
            let ghost old_best = best;
            if !keep || d < best_d {
                best = Some(idx);
                best_d = d;
            }
            proof {
                assert(cands@.take(t + 1)[t as int] == cands@[t as int]);
                if old_best is Some && best == old_best {
                    let w = choose|w: int|
                        0 <= w < t as int && cands@.take(t as int)[w] == old_best->0;
                    assert(cands@.take(t + 1)[w] == old_best->0);
                }
            }
            t = t + 1;
        }
        proof {
            assert(self.points.len() == self@.len());
            assert(cands@.take(cands@.len() as int) =~= cands@);
            if best is None {
                assert(cands@.len() == 0);
                assert forall|j: int|
                    0 <= j < self@.len() implies !within_chebyshev(
                    #[trigger] self@[j],
                    point,
                    radius as int,
                ) by {
                    if within_chebyshev(self@[j], point, radius as int) {
                        assert(cands@.contains(j as usize));
                    }
                }
                assert forall|j: int|
                    0 <= j < self@.len() implies dist_sq(#[trigger] self@[j], point) >= radius
                    * radius by {
                    if dist_sq(self@[j], point) < radius * radius {
                        assert(cands@.contains(j as usize));
                    }
                }
            }
            assert forall|j: int|
                0 <= j < self@.len() && dist_sq(#[trigger] self@[j], point) < radius
                    * radius implies best is Some && dist_sq(self@[best->0 as int], point)
                <= dist_sq(self@[j], point) && dist_sq(self@[best->0 as int], point) < radius
                * radius by {
                assert(cands@.contains(j as usize));
                let u = choose|u: int| 0 <= u < cands@.len() && cands@[u] == j as usize;
                assert(best_d <= dist_sq(self@[(cands@[u]) as int], point));
            }
        }
        best
    }

    /// For every point, the ascending list of the other points strictly
    /// within `radius` of it.  One row per point, in input order.
    pub fn interactions(&self, radius: i64) -> (rows: Vec<Vec<usize>>)
        requires
            self.wf(),
            0 <= radius <= COORD_LIMIT,
        ensures
            rows@.len() == self@.len(),
            forall|i: int| 0 <= i < rows@.len() ==> sorted((#[trigger] rows@[i])@),
            forall|i: int| 0 <= i < rows@.len() ==> (#[trigger] rows@[i])@.no_duplicates(),
            forall|i: int, j: usize|
                0 <= i < rows@.len() ==> ((#[trigger] rows@[i]@.contains(j)) <==> ((j as int)
                    < self@.len() && j as int != i && dist_sq(self@[j as int], self@[i]) < radius
                    * radius)),
    {
        broadcast use vstd::seq_lib::group_seq_properties;

        let n = self.points.len();
        let mut rows: Vec<Vec<usize>> = Vec::new();
        let mut i: usize = 0;
        while i < n
            invariant
                i <= n,
                n == self@.len(),
                self.wf(),
                0 <= radius <= COORD_LIMIT,
                rows@.len() == i as int,
                forall|t: int|
                    0 <= t < i as int ==> sorted((#[trigger] rows@[t])@) && rows@[
                        t
                    ]@.no_duplicates(),
                forall|t: int, j: usize|
                    0 <= t < i as int ==> ((#[trigger] rows@[t]@.contains(j)) <==> ((j as int) < n
                        && j as int != t && dist_sq(self@[j as int], self@[t]) < radius * radius)),
            decreases n - i,
        {
            let p = self.points[i];
            let nf = self.neighbors_filtered(p, radius);
            let mut row: Vec<usize> = Vec::new();
            let mut t: usize = 0;
            while t < nf.len()
                invariant
                    t <= nf@.len(),
                    nf@.no_duplicates(),
                    forall|j: usize| #[trigger] row@.contains(j) ==> nf@.take(t as int).contains(j),
                    forall|j: usize|
                        #[trigger] row@.contains(j) <==> (nf@.take(t as int).contains(j) && j
                            != i),
                    row@.no_duplicates(),
                decreases nf@.len() - t,
            {
                let j = nf[t];
                let ghost row_before = row@;
                if j != i {
                    proof {
                        if row_before.contains(j) {
                            let u = choose|u: int|
                                0 <= u < t as int && nf@.take(t as int)[u] == j;
                            assert(nf@[u] == nf@[t as int]);
                            assert(false);
                        }
                    }
                    row.push(j);
                }
                proof {
                    assert(nf@.take(t + 1).drop_last() =~= nf@.take(t as int));
                    assert(nf@.take(t + 1).last() == nf@[t as int]);
                    assert forall|j2: usize| #[trigger] row@.contains(j2) implies (nf@.take(
                        t + 1,
                    ).contains(j2) && j2 != i) by {
                        let w = choose|w: int| 0 <= w < row@.len() && row@[w] == j2;
                        if w < row_before.len() {
                            assert(row_before[w] == j2);
                            assert(row_before.contains(j2));
                            let u = choose|u: int|
                                0 <= u < t as int && nf@.take(t as int)[u] == j2;
                            assert(nf@.take(t + 1)[u] == j2);
                        } else {
                            assert(j2 == j);
                            assert(nf@.take(t + 1)[t as int] == j2);
                        }
                    }
                    assert forall|j2: usize|
                        nf@.take(t + 1).contains(j2) && j2 != i implies #[trigger] row@.contains(
                        j2,
                    ) by {
                        let u = choose|u: int|
                            0 <= u <= t as int && #[trigger] nf@.take(t + 1)[u] == j2;
                        if u < t as int {
                            assert(nf@.take(t as int)[u] == j2);
                            assert(nf@.take(t as int).contains(j2));
                            assert(row_before.contains(j2));
                            let w = choose|w: int|
                                0 <= w < row_before.len() && row_before[w] == j2;
                            assert(row@[w] == j2);
                        } else {
                            assert(j2 == j);
                            assert(row@[row@.len() - 1] == j2);
                        }
                    }
                }
                t = t + 1;
            }
            proof {
                assert(nf@.take(nf@.len() as int) =~= nf@);
                lemma_no_dup_counts_le_one(row@);
            }
            let sorted_row = sort_ascending(row);
            proof {
                lemma_counts_le_one_no_dup(sorted_row@);
                assert forall|j: usize| #[trigger]
                    sorted_row@.contains(j) <==> ((j as int) < n && j as int != i as int
                        && dist_sq(self@[j as int], self@[i as int]) < radius * radius) by {
                    assert(sorted_row@.contains(j) <==> sorted_row@.to_multiset().count(j) > 0);
                }
            }
            rows.push(sorted_row);
            i = i + 1;
        }
        rows
    }

    /// Every unordered pair of distinct points strictly within `radius`
    /// of each other, exactly once, smaller index first.
    pub fn interaction_pairs(&self, radius: i64) -> (r: Vec<(usize, usize)>)
        requires
            self.wf(),
            0 <= radius <= COORD_LIMIT,
        ensures
            forall|p: (usize, usize)|
                #[trigger] r@.contains(p) <==> ((p.0 as int) < (p.1 as int) && (p.1 as int)
                    < self@.len() && dist_sq(self@[p.0 as int], self@[p.1 as int]) < radius
                    * radius),
            r@.no_duplicates(),
            r@.to_set() == interacting_pairs(self@, radius as int),
    {
        broadcast use vstd::seq_lib::group_seq_properties;

        let n = self.points.len();
        let mut r: Vec<(usize, usize)> = Vec::new();
        let mut i: usize = 0;
        while i < n
            invariant
                i <= n,
                n == self@.len(),
                self.wf(),
                0 <= radius <= COORD_LIMIT,
                forall|p: (usize, usize)|
                    #[trigger] r@.contains(p) <==> ((p.0 as int) < i as int && (p.0 as int) < (
                    p.1 as int) && (p.1 as int) < n && dist_sq(
                        self@[p.0 as int],
                        self@[p.1 as int],
                    ) < radius * radius),
                r@.no_duplicates(),
            decreases n - i,
        {
            let p = self.points[i];
            let nf = self.neighbors_filtered(p, radius);
            let mut t: usize = 0;
            while t < nf.len()
                invariant
                    t <= nf@.len(),
                    n == self@.len(),
                    (i as int) < n,
                    self.wf(),
                    0 <= radius <= COORD_LIMIT,
                    p == self@[i as int],
                    nf@.no_duplicates(),
                    forall|j: usize|
                        #[trigger] nf@.contains(j) <==> ((j as int) < n && dist_sq(
                            self@[j as int],
                            p,
                        ) < radius * radius),
                    forall|q: (usize, usize)|
                        #[trigger] r@.contains(q) <==> (((q.0 as int) < i as int && (q.0 as int)
                            < (q.1 as int) && (q.1 as int) < n && dist_sq(
                            self@[q.0 as int],
                            self@[q.1 as int],
                        ) < radius * radius) || (q.0 == i && nf@.take(t as int).contains(q.1) && (
                        i as int) < (q.1 as int))),
                    r@.no_duplicates(),
                decreases nf@.len() - t,
            {
                let j = nf[t];
                let ghost r_before = r@;
                if i < j {
                    proof {
                        if r_before.contains((i, j)) {
                            assert(nf@.take(t as int).contains(j));
                            let u = choose|u: int|
                                0 <= u < t as int && nf@.take(t as int)[u] == j;
                            assert(nf@[u] == nf@[t as int]);
                            assert(false);
                        }
                    }
                    r.push((i, j));
                }
                proof {
                    assert(nf@.take(t + 1).drop_last() =~= nf@.take(t as int));
                    assert(nf@.take(t + 1).last() == nf@[t as int]);
                    assert forall|q: (usize, usize)| #[trigger]
                        r@.contains(q) <==> (((q.0 as int) < i as int && (q.0 as int) < (
                        q.1 as int) && (q.1 as int) < n && dist_sq(
                            self@[q.0 as int],
                            self@[q.1 as int],
                        ) < radius * radius) || (q.0 == i && nf@.take(t + 1).contains(q.1) && (
                    i as int) < (q.1 as int))) by {
                        if r@.contains(q) {
                            let w = choose|w: int| 0 <= w < r@.len() && r@[w] == q;
                            if w < r_before.len() {
                                assert(r_before[w] == q);
                                assert(r_before.contains(q));
                                if q.0 == i && nf@.take(t as int).contains(q.1) {
                                    let u = choose|u: int|
                                        0 <= u < t as int && nf@.take(t as int)[u] == q.1;
                                    assert(nf@.take(t + 1)[u] == q.1);
                                }
                            } else {
                                assert(q == (i, j));
                                assert(nf@.take(t + 1)[t as int] == j);
                                assert(nf@.take(t + 1).contains(j));
                            }
                        }
                        if ((q.0 as int) < i as int && (q.0 as int) < (q.1 as int) && (
                        q.1 as int) < n && dist_sq(self@[q.0 as int], self@[q.1 as int]) < radius
                            * radius) {
                            assert(r_before.contains(q));
                            let w = choose|w: int|
                                0 <= w < r_before.len() && r_before[w] == q;
                            assert(r@[w] == q);
                            assert(r@.contains(q));
                        }
                        if q.0 == i && nf@.take(t + 1).contains(q.1) && (i as int) < (
                        q.1 as int) {
                            let u = choose|u: int|
                                0 <= u <= t as int && #[trigger] nf@.take(t + 1)[u] == q.1;
                            if u < t as int {
                                assert(nf@.take(t as int)[u] == q.1);
                                assert(nf@.take(t as int).contains(q.1));
                                assert(r_before.contains(q));
                                let w = choose|w: int|
                                    0 <= w < r_before.len() && r_before[w] == q;
                                assert(r@[w] == q);
                                assert(r@.contains(q));
                            } else {
                                assert(q.1 == j);
                                assert(q == (i, j));
                                assert(r@[r@.len() - 1] == (i, j));
                                assert(r@.contains(q));
                            }
                        }
                    }
                }
                t = t + 1;
            }
            proof {
                assert(nf@.take(nf@.len() as int) =~= nf@);
                assert forall|q: (usize, usize)| #[trigger]
                    r@.contains(q) <==> ((q.0 as int) < i + 1 && (q.0 as int) < (q.1 as int) && (
                q.1 as int) < n && dist_sq(self@[q.0 as int], self@[q.1 as int]) < radius
                    * radius) by {
                    lemma_dist_sq_symm(self@[q.0 as int], self@[q.1 as int]);
                    if q.0 == i && nf@.contains(q.1) && (i as int) < (q.1 as int) {
                        assert(dist_sq(self@[q.1 as int], self@[i as int]) < radius * radius);
                    }
                }
            }
            i = i + 1;
        }
        proof {
            assert(r@.to_set() =~= interacting_pairs(self@, radius as int));
        }
        r
    }
}

} // verus!
