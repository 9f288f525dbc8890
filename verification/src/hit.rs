//! What a ray makes of a triangle or of a sphere, once the numbers are
//! there: the decisions of the two intersection tests.
//!
//! The caller forms the determinant, the barycentric coordinates and the
//! distances, and hands them in as ordered coordinates; which of them count
//! as a hit is decided here.

use vstd::prelude::*;

verus! {

/// The coordinate of 0.001: a triangle whose determinant lies below it is
/// seen from behind or edge-on, and is not hit.
pub const EPSILON: i32 = 0x3a83_126f;

/// The coordinate of 1.
pub const ONE: i32 = 0x3f80_0000;

/// Whether a triangle with this determinant turns its back on the ray, or
/// is too thin to be hit.
pub open spec fn is_culled(det: int) -> bool {
    det < EPSILON
}

/// Whether the barycentric coordinates `u` and `v`, with their sum, name a
/// point outside the triangle.
pub open spec fn is_outside(u: int, v: int, u_plus_v: int) -> bool {
    u < 0 || u > ONE || v < 0 || u_plus_v > ONE
}

/// The distance at which a ray hits a triangle: `t`, unless the triangle is
/// culled, the point lies outside of it, or the point lies behind the
/// origin of the ray.
pub open spec fn triangle_hit(det: int, u: int, v: int, u_plus_v: int, t: int) -> Option<int> {
    if is_culled(det) || is_outside(u, v, u_plus_v) || t < 0 {
        None
    } else {
        Some(t)
    }
}

/// Whether a triangle with this determinant is not hit, whatever the other
/// numbers are.
pub fn faces_away(det: i32) -> (away: bool)
    ensures
        away == is_culled(det as int),
        away ==> forall|u: int, v: int, s: int, t: int|
            #[trigger] triangle_hit(det as int, u, v, s, t) is None,
{
    det < EPSILON
}

/// Whether the barycentric coordinates name a point outside the triangle.
pub fn outside_triangle(u: i32, v: i32, u_plus_v: i32) -> (outside: bool)
    ensures
        outside == is_outside(u as int, v as int, u_plus_v as int),
{
    u < 0 || u > ONE || v < 0 || u_plus_v > ONE
}

/// The distance at which a ray hits a triangle, with the barycentric
/// coordinates of the point, or `None`.
pub fn moller_trumbore(det: i32, u: i32, v: i32, u_plus_v: i32, t: i32) -> (hit: Option<
    (i32, i32, i32),
>)
    ensures
        match hit {
            Some(found) => triangle_hit(det as int, u as int, v as int, u_plus_v as int, t as int)
                == Some(t as int) && found == (t, u, v),
            None => triangle_hit(det as int, u as int, v as int, u_plus_v as int, t as int)
                is None,
        },
{
    if faces_away(det) {
        return None;
    }
    if outside_triangle(u, v, u_plus_v) {
        return None;
    }
    if t < 0 {
        return None;
    }
    Some((t, u, v))
}

/// A triangle without area has the determinant zero for every ray, and is
/// never hit.
pub proof fn lemma_degenerate_triangle(u: int, v: int, u_plus_v: int, t: int)
    ensures
        triangle_hit(0, u, v, u_plus_v, t) is None,
{
}

/// A triangle is never hit behind the origin of the ray: a distance that is
/// reported of it is the one handed in, and is not negative.
pub proof fn lemma_triangle_hit_in_front(det: int, u: int, v: int, u_plus_v: int, t: int)
    ensures
        triangle_hit(det, u, v, u_plus_v, t) matches Some(d) ==> d == t && d >= 0,
        t < 0 ==> triangle_hit(det, u, v, u_plus_v, t) is None,
{
}

/// Whether a ray that passes the centre of a sphere at the squared distance
/// `d_squared` passes by the sphere. Every ray passes by a sphere without
/// radius.
pub open spec fn passes_by(d_squared: int, radius_squared: int) -> bool {
    d_squared > radius_squared || radius_squared <= 0
}

/// The distance at which a ray hits a sphere that it enters at `t0` and
/// leaves at `t1`: the entry where it lies at or in front of the origin,
/// else the exit where that does, else nothing.
pub open spec fn sphere_hit(t0: int, t1: int) -> Option<int> {
    if t0 >= 0 {
        Some(t0)
    } else if t1 >= 0 {
        Some(t1)
    } else {
        None
    }
}

/// Whether the ray passes by the sphere.
pub fn misses_sphere(d_squared: i32, radius_squared: i32) -> (misses: bool)
    ensures
        misses == passes_by(d_squared as int, radius_squared as int),
{
    d_squared > radius_squared || radius_squared <= 0
}

/// The distance at which a ray hits a sphere that it enters at `t0` and
/// leaves at `t1`.
pub fn sphere_distance(t0: i32, t1: i32) -> (hit: Option<i32>)
    ensures
        match hit {
            Some(t) => sphere_hit(t0 as int, t1 as int) == Some(t as int),
            None => sphere_hit(t0 as int, t1 as int) is None,
        },
{
    if t0 >= 0 {
        Some(t0)
    } else if t0 < 0 && t1 >= 0 {
        Some(t1)
    } else {
        None
    }
}

/// A sphere without radius is passed by, wherever the ray goes.
pub proof fn lemma_degenerate_sphere(d_squared: int)
    ensures
        passes_by(d_squared, 0),
{
}

/// What is reported of a sphere is the smallest of the two distances that
/// does not lie behind the origin, and nothing is reported only if both do.
pub proof fn lemma_sphere_hit_is_nearest(t0: int, t1: int)
    requires
        t0 <= t1,
    ensures
        sphere_hit(t0, t1) is None <==> t1 < 0,
        sphere_hit(t0, t1) matches Some(t) ==> t >= 0 && (t == t0 || t == t1) && (t0 >= 0 ==> t
            == t0),
{
}

} // verus!
