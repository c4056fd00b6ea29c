use vstd::prelude::*;

verus! {

/// Number of integer steps that stand for one unit of world space.
///
/// All coordinates handled by this crate are fixed-point values: a world
/// coordinate `w` is stored as the integer `w * UNIT`.
pub const UNIT: i64 = 65536;

/// Edge length at or below which a region is never subdivided (one world unit).
pub const LEAF_SIZE: i64 = UNIT;

/// Mid-gray color component attached to every emitted vertex (0.5 in fixed point).
pub const GRAY: i64 = 32768;

/// Bound kept on every coordinate that enters distance computations, so that
/// squared distances and their three-term sums fit in `i128` arithmetic.
pub const COORD_LIMIT: i64 = 0x1000_0000_0000_0000;

/// A point or offset in the fixed-point coordinate space.
#[derive(Clone, Copy, PartialEq, Eq, Structural, Debug)]
pub struct Vec3 {
    pub x: i64,
    pub y: i64,
    pub z: i64,
}

impl Vec3 {
    /// All three components lie within `COORD_LIMIT`.
    pub open spec fn bounded(self) -> bool {
        &&& -COORD_LIMIT <= self.x <= COORD_LIMIT
        &&& -COORD_LIMIT <= self.y <= COORD_LIMIT
        &&& -COORD_LIMIT <= self.z <= COORD_LIMIT
    }

    pub fn new(x: i64, y: i64, z: i64) -> (v: Vec3)
        ensures
            v == (Vec3 { x, y, z }),
    {
        Vec3 { x, y, z }
    }
}

/// The axis-aligned cube centered at `c` with edge length `s` lies within
/// `[-COORD_LIMIT, COORD_LIMIT]` on every axis.
pub open spec fn cube_bounded(c: Vec3, s: i64) -> bool {
    &&& -COORD_LIMIT <= c.x - s / 2 && c.x + s / 2 <= COORD_LIMIT
    &&& -COORD_LIMIT <= c.y - s / 2 && c.y + s / 2 <= COORD_LIMIT
    &&& -COORD_LIMIT <= c.z - s / 2 && c.z + s / 2 <= COORD_LIMIT
}

/// `p` lies inside the axis-aligned cube centered at `c` with edge length `s`
/// (boundaries included).
pub open spec fn in_cube(c: Vec3, s: i64, p: Vec3) -> bool {
    &&& c.x - s / 2 <= p.x <= c.x + s / 2
    &&& c.y - s / 2 <= p.y <= c.y + s / 2
    &&& c.z - s / 2 <= p.z <= c.z + s / 2
}

/// Squared Euclidean distance between two points.
pub open spec fn dist_sq(p: Vec3, q: Vec3) -> int {
    let dx = p.x - q.x;
    let dy = p.y - q.y;
    let dz = p.z - q.z;
    dx * dx + dy * dy + dz * dz
}

/// `p` lies within distance `r` of `qc` (boundary included).
pub open spec fn in_sphere(qc: Vec3, r: i64, p: Vec3) -> bool {
    dist_sq(p, qc) <= r * r
}

/// `v` clamped into the interval `[lo, hi]`.
pub open spec fn clamped(v: int, lo: int, hi: int) -> int {
    if v < lo {
        lo
    } else if v > hi {
        hi
    } else {
        v
    }
}

/// Squared distance from `q` to the closest point of the cube `(c, s)`;
/// that closest point is the per-axis clamp of `q` into the cube.
pub open spec fn cube_dist_sq(c: Vec3, s: i64, q: Vec3) -> int {
    let dx = clamped(q.x as int, c.x - s / 2, c.x + s / 2) - q.x;
    let dy = clamped(q.y as int, c.y - s / 2, c.y + s / 2) - q.y;
    let dz = clamped(q.z as int, c.z - s / 2, c.z + s / 2) - q.z;
    dx * dx + dy * dy + dz * dz
}

/// The sphere `(qc, r)` touches the cube `(c, s)`: the closest point of the
/// cube to `qc` lies within distance `r` of `qc`.
pub open spec fn cube_touches_sphere(c: Vec3, s: i64, qc: Vec3, r: i64) -> bool {
    cube_dist_sq(c, s, qc) <= r * r
}

/// Every point of the cube `(c, s)` lies within distance `r` of `qc`.
pub open spec fn sphere_covers_cube(qc: Vec3, r: i64, c: Vec3, s: i64) -> bool {
    forall|p: Vec3| in_cube(c, s, p) ==> in_sphere(qc, r, p)
}

/// `v` clamped into the interval `[lo, hi]`.
pub fn clamp_i64(v: i64, lo: i64, hi: i64) -> (r: i64)
    requires
        lo <= hi,
    ensures
        r == clamped(v as int, lo as int, hi as int),
{
    if v < lo {
        lo
    } else if v > hi {
        hi
    } else {
        v
    }
}

/// The square of a value within twice `COORD_LIMIT` stays well inside
/// `i128` range, even summed three times.
pub proof fn lemma_square_bound(v: int)
    requires
        -2 * COORD_LIMIT <= v <= 2 * COORD_LIMIT,
    ensures
        0 <= v * v <= 4 * (COORD_LIMIT as int) * (COORD_LIMIT as int),
{
    assert(0 <= v * v <= 4 * (COORD_LIMIT as int) * (COORD_LIMIT as int)) by (nonlinear_arith)
        requires
            -2 * (COORD_LIMIT as int) <= v <= 2 * (COORD_LIMIT as int),
    ;
}

/// On one axis: clamping `q` into an interval that contains `p` moves it no
/// farther from `q` than `p` is.
proof fn lemma_clamp_axis(q: int, lo: int, hi: int, p: int)
    requires
        lo <= p <= hi,
    ensures
        (clamped(q, lo, hi) - q) * (clamped(q, lo, hi) - q) <= (p - q) * (p - q),
{
    let c = clamped(q, lo, hi);
    assert((c - q) * (c - q) <= (p - q) * (p - q)) by (nonlinear_arith)
        requires
            lo <= p <= hi,
            c == (if q < lo {
                lo
            } else if q > hi {
                hi
            } else {
                q
            });
}

/// The closest point of a cube to `q` is no farther from `q` than any point
/// of the cube.
pub proof fn lemma_closest_point_minimal(c: Vec3, s: i64, q: Vec3, p: Vec3)
    requires
        in_cube(c, s, p),
    ensures
        cube_dist_sq(c, s, q) <= dist_sq(p, q),
{
    lemma_clamp_axis(q.x as int, c.x - s / 2, c.x + s / 2, p.x as int);
    lemma_clamp_axis(q.y as int, c.y - s / 2, c.y + s / 2, p.y as int);
    lemma_clamp_axis(q.z as int, c.z - s / 2, c.z + s / 2, p.z as int);
}

/// A cube that the sphere fails to touch contains no point of the sphere.
pub proof fn lemma_pruned_cube_has_no_hits(c: Vec3, s: i64, qc: Vec3, r: i64, p: Vec3)
    requires
        !cube_touches_sphere(c, s, qc, r),
        in_cube(c, s, p),
    ensures
        !in_sphere(qc, r, p),
{
    lemma_closest_point_minimal(c, s, qc, p);
}

} // verus!
