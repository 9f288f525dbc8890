//! Points and axis-aligned boxes over ordered coordinates.
//!
//! A coordinate is an `i32` that stands for a position on an axis by its
//! order alone: a smaller number is a position further down the axis, and
//! equal numbers are the same position. Boxes are compared, joined and
//! searched with nothing but that order. Sums, differences and midpoints of
//! coordinates are not formed here: where one is needed, the caller hands in
//! a function that makes it.

use crate::scalar::{INFINITY, NEG_INFINITY};
use vstd::prelude::*;

verus! {

/// The number of axes.
pub const AXES: usize = 3;

/// A position in space.
#[derive(Copy, Clone, PartialEq, Eq, Debug)]
pub struct Point3d {
    pub x: i32,
    pub y: i32,
    pub z: i32,
}

impl Point3d {
    /// The coordinate on axis 0 (`x`), 1 (`y`) or 2 (`z`).
    pub open spec fn coord(self, axis: int) -> int {
        if axis == 0 {
            self.x as int
        } else if axis == 1 {
            self.y as int
        } else {
            self.z as int
        }
    }

    /// The point whose coordinates are all zero.
    pub fn new() -> (p: Point3d)
        ensures
            p == (Point3d { x: 0, y: 0, z: 0 }),
    {
        Point3d { x: 0, y: 0, z: 0 }
    }

    /// The point with the coordinates `a[0]`, `a[1]`, `a[2]`.
    pub fn from_array(a: &[i32; 3]) -> (p: Point3d)
        ensures
            p == (Point3d { x: a@[0], y: a@[1], z: a@[2] }),
    {
        Point3d { x: a[0], y: a[1], z: a[2] }
    }

    /// The point with the coordinates `x`, `y`, `z`.
    pub fn from_coords(x: i32, y: i32, z: i32) -> (p: Point3d)
        ensures
            p == (Point3d { x, y, z }),
    {
        Point3d { x, y, z }
    }

    /// The coordinate on the given axis.
    pub fn get(&self, axis: usize) -> (c: i32)
        requires
            axis < AXES,
        ensures
            c == self.coord(axis as int),
    {
        if axis == 0 {
            self.x
        } else if axis == 1 {
            self.y
        } else {
            self.z
        }
    }
}

/// The smaller of two coordinates.
pub open spec fn min2(a: int, b: int) -> int {
    if a < b {
        a
    } else {
        b
    }
}

/// The larger of two coordinates.
pub open spec fn max2(a: int, b: int) -> int {
    if a > b {
        a
    } else {
        b
    }
}

/// The smaller of two coordinates.
pub fn min_of_two(a: i32, b: i32) -> (m: i32)
    ensures
        m == min2(a as int, b as int),
{
    if a < b {
        a
    } else {
        b
    }
}

/// The larger of two coordinates.
pub fn max_of_two(a: i32, b: i32) -> (m: i32)
    ensures
        m == max2(a as int, b as int),
{
    if a > b {
        a
    } else {
        b
    }
}

/// The smallest of three coordinates.
pub fn min_of_three(a: i32, b: i32, c: i32) -> (m: i32)
    ensures
        m == min2(a as int, min2(b as int, c as int)),
{
    min_of_two(a, min_of_two(b, c))
}

/// The largest of three coordinates.
pub fn max_of_three(a: i32, b: i32, c: i32) -> (m: i32)
    ensures
        m == max2(a as int, max2(b as int, c as int)),
{
    max_of_two(a, max_of_two(b, c))
}

/// An axis-aligned box: the points that lie, on every axis, between the
/// coordinate of `min` and that of `max`, both included. A box whose `min`
/// lies above its `max` on some axis holds no point.
#[derive(Copy, Clone, PartialEq, Eq, Debug)]
pub struct Aabb {
    pub min: Point3d,
    pub max: Point3d,
}

impl Aabb {
    /// The box that holds no point and that joining leaves every box as it
    /// is: its `min` is positive infinity on every axis, its `max` negative
    /// infinity.
    pub open spec fn empty() -> Aabb {
        Aabb {
            min: Point3d { x: INFINITY, y: INFINITY, z: INFINITY },
            max: Point3d { x: NEG_INFINITY, y: NEG_INFINITY, z: NEG_INFINITY },
        }
    }

    /// Whether every coordinate of the two corners is the coordinate of a
    /// number: none lies beyond the infinities.
    pub open spec fn in_range(self) -> bool {
        &&& NEG_INFINITY <= self.min.x <= INFINITY && NEG_INFINITY <= self.max.x <= INFINITY
        &&& NEG_INFINITY <= self.min.y <= INFINITY && NEG_INFINITY <= self.max.y <= INFINITY
        &&& NEG_INFINITY <= self.min.z <= INFINITY && NEG_INFINITY <= self.max.z <= INFINITY
    }

    /// Whether the box holds a point: on no axis its `min` lies above its
    /// `max`.
    pub open spec fn is_nonempty(self) -> bool {
        &&& self.min.x <= self.max.x
        &&& self.min.y <= self.max.y
        &&& self.min.z <= self.max.z
    }

    /// Whether the point lies in the box.
    pub open spec fn contains(self, p: Point3d) -> bool {
        &&& self.min.x <= p.x <= self.max.x
        &&& self.min.y <= p.y <= self.max.y
        &&& self.min.z <= p.z <= self.max.z
    }

    /// Whether the box reaches at least as far as `other` in both directions
    /// of every axis.
    pub open spec fn encloses(self, other: Aabb) -> bool {
        &&& self.min.x <= other.min.x && other.max.x <= self.max.x
        &&& self.min.y <= other.min.y && other.max.y <= self.max.y
        &&& self.min.z <= other.min.z && other.max.z <= self.max.z
    }

    /// The smallest box that encloses both.
    pub open spec fn join(self, other: Aabb) -> Aabb {
        Aabb {
            min: Point3d {
                x: min2(self.min.x as int, other.min.x as int) as i32,
                y: min2(self.min.y as int, other.min.y as int) as i32,
                z: min2(self.min.z as int, other.min.z as int) as i32,
            },
            max: Point3d {
                x: max2(self.max.x as int, other.max.x as int) as i32,
                y: max2(self.max.y as int, other.max.y as int) as i32,
                z: max2(self.max.z as int, other.max.z as int) as i32,
            },
        }
    }

    /// The smallest box around three points.
    pub open spec fn around(a: Point3d, b: Point3d, c: Point3d) -> Aabb {
        (Aabb { min: a, max: a }).join(Aabb { min: b, max: b }).join(Aabb { min: c, max: c })
    }

    /// The box that holds no point.
    pub fn new() -> (b: Aabb)
        ensures
            b == Aabb::empty(),
    {
        Aabb {
            min: Point3d::from_coords(INFINITY, INFINITY, INFINITY),
            max: Point3d::from_coords(NEG_INFINITY, NEG_INFINITY, NEG_INFINITY),
        }
    }

    /// The box between two corners.
    pub fn from_point3d(min: Point3d, max: Point3d) -> (b: Aabb)
        ensures
            b == (Aabb { min, max }),
    {
        Aabb { min, max }
    }

    /// The smallest box around the three corners of a triangle.
    pub fn from_triangle(v0: Point3d, v1: Point3d, v2: Point3d) -> (b: Aabb)
        ensures
            b == Aabb::around(v0, v1, v2),
            b.contains(v0),
            b.contains(v1),
            b.contains(v2),
    {
        Aabb::from_point3d(
            Point3d::from_coords(
                min_of_three(v0.x, v1.x, v2.x),
                min_of_three(v0.y, v1.y, v2.y),
                min_of_three(v0.z, v1.z, v2.z),
            ),
            Point3d::from_coords(
                max_of_three(v0.x, v1.x, v2.x),
                max_of_three(v0.y, v1.y, v2.y),
                max_of_three(v0.z, v1.z, v2.z),
            ),
        )
    }

    /// The corner with the lowest coordinates.
    pub fn _get_min(&self) -> (p: Point3d)
        ensures
            p == self.min,
    {
        self.min
    }

    /// The corner with the highest coordinates.
    pub fn _get_max(&self) -> (p: Point3d)
        ensures
            p == self.max,
    {
        self.max
    }

    /// The smallest box that encloses both.
    pub fn get_superset(&self, other: Aabb) -> (b: Aabb)
        ensures
            b == self.join(other),
    {
        Aabb::from_point3d(
            Point3d::from_coords(
                min_of_two(self.min.x, other.min.x),
                min_of_two(self.min.y, other.min.y),
                min_of_two(self.min.z, other.min.z),
            ),
            Point3d::from_coords(
                max_of_two(self.max.x, other.max.x),
                max_of_two(self.max.y, other.max.y),
                max_of_two(self.max.z, other.max.z),
            ),
        )
    }

    /// Whether the point lies in the box.
    pub fn holds(&self, p: &Point3d) -> (inside: bool)
        ensures
            inside == self.contains(*p),
    {
        self.min.x <= p.x && p.x <= self.max.x && self.min.y <= p.y && p.y <= self.max.y
            && self.min.z <= p.z && p.z <= self.max.z
    }

    /// The point in the middle of the box, each coordinate of it made by
    /// `midpoint` from the box's lowest and highest coordinate on that axis.
    pub fn get_centroid<M: Fn(i32, i32) -> i32>(&self, midpoint: &M) -> (c: Point3d)
        requires
            forall|lo: i32, hi: i32| call_requires(midpoint, (lo, hi)),
        ensures
            is_centroid(*midpoint, *self, c),
    {
        Point3d::from_coords(
            midpoint(self.min.x, self.max.x),
            midpoint(self.min.y, self.max.y),
            midpoint(self.min.z, self.max.z),
        )
    }
}

impl core::ops::Add<Aabb> for Aabb {
    type Output = Aabb;

    /// The smallest box that encloses both.
    fn add(self, other: Aabb) -> (b: Aabb) {
        self.get_superset(other)
    }
}

impl vstd::std_specs::ops::AddSpecImpl<Aabb> for Aabb {
    open spec fn obeys_add_spec() -> bool {
        true
    }

    open spec fn add_req(self, other: Aabb) -> bool {
        true
    }

    open spec fn add_spec(self, other: Aabb) -> Aabb {
        self.join(other)
    }
}

/// Whether each coordinate of `c` is what `midpoint` makes of the lowest
/// and the highest coordinate of the box on that axis.
pub open spec fn is_centroid<M: Fn(i32, i32) -> i32>(midpoint: M, b: Aabb, c: Point3d) -> bool {
    &&& call_ensures(midpoint, (b.min.x, b.max.x), c.x)
    &&& call_ensures(midpoint, (b.min.y, b.max.y), c.y)
    &&& call_ensures(midpoint, (b.min.z, b.max.z), c.z)
}

/// Whether `midpoint` answers with a coordinate between the two that it is
/// given, wherever the first does not lie above the second.
pub open spec fn answers_between<M: Fn(i32, i32) -> i32>(midpoint: M) -> bool {
    forall|lo: i32, hi: i32, mid: i32|
        lo <= hi && #[trigger] call_ensures(midpoint, (lo, hi), mid) ==> lo <= mid <= hi
}

/// The centroid of a box that holds a point lies in the box, where the
/// midpoint of two coordinates lies between them.
pub proof fn lemma_centroid_inside<M: Fn(i32, i32) -> i32>(midpoint: M, b: Aabb, c: Point3d)
    requires
        b.is_nonempty(),
        answers_between(midpoint),
        is_centroid(midpoint, b, c),
    ensures
        b.contains(c),
{
}

/// A box that holds a point holds it after every join: the join of such a
/// box with any other has its `min` at or below its `max` on every axis. The
/// empty box holds no point, and the box around three points holds one.
pub proof fn lemma_join_nonempty(a: Aabb, b: Aabb, p: Point3d, q: Point3d, r: Point3d)
    ensures
        a.is_nonempty() ==> a.join(b).is_nonempty() && b.join(a).is_nonempty(),
        a.is_nonempty() <==> exists|x: Point3d| a.contains(x),
        !Aabb::empty().is_nonempty(),
        Aabb::around(p, q, r).is_nonempty(),
{
    if a.is_nonempty() {
        assert(a.contains(a.min));
    }
}

/// Joining with the empty box changes no box whose coordinates are
/// coordinates of numbers.
pub proof fn lemma_join_empty(a: Aabb)
    requires
        a.in_range(),
    ensures
        Aabb::empty().join(a) == a,
        a.join(Aabb::empty()) == a,
{
}

/// The join of two boxes whose coordinates are coordinates of numbers is
/// such a box.
pub proof fn lemma_join_in_range(a: Aabb, b: Aabb)
    requires
        a.in_range(),
        b.in_range(),
    ensures
        a.join(b).in_range(),
{
}

/// Joining does not depend on the order of the two boxes.
pub proof fn lemma_join_commutative(a: Aabb, b: Aabb)
    ensures
        a.join(b) == b.join(a),
{
}

/// Joining does not depend on how three boxes are grouped.
pub proof fn lemma_join_associative(a: Aabb, b: Aabb, c: Aabb)
    ensures
        a.join(b).join(c) == a.join(b.join(c)),
{
}

/// Joining a box with itself changes nothing.
pub proof fn lemma_join_idempotent(a: Aabb)
    ensures
        a.join(a) == a,
{
}

/// A point of a box lies in every join of that box.
pub proof fn lemma_join_contains(a: Aabb, b: Aabb, p: Point3d)
    requires
        a.contains(p),
    ensures
        a.join(b).contains(p),
        b.join(a).contains(p),
{
}

/// The join encloses both boxes, and every box that encloses both encloses
/// the join.
pub proof fn lemma_join_least(a: Aabb, b: Aabb, c: Aabb)
    ensures
        a.join(b).encloses(a),
        a.join(b).encloses(b),
        c.encloses(a) && c.encloses(b) ==> c.encloses(a.join(b)),
{
}

/// Enclosing is an order on boxes: every box encloses itself, and a box that
/// encloses a second one encloses what the second encloses. The empty box is
/// enclosed by every box whose coordinates are coordinates of numbers.
pub proof fn lemma_encloses_order(a: Aabb, b: Aabb, c: Aabb)
    ensures
        a.encloses(a),
        a.encloses(b) && b.encloses(c) ==> a.encloses(c),
        a.encloses(b) && b.encloses(a) ==> a == b,
        a.in_range() ==> a.encloses(Aabb::empty()),
{
}

/// The box around three points holds the three, holds every point that
/// lies on every axis between the lowest and the highest coordinate of the
/// three and no other point, and is enclosed by every box that holds the
/// three.
pub proof fn lemma_around_is_tight(a: Point3d, b: Point3d, c: Point3d, p: Point3d, other: Aabb)
    ensures
        Aabb::around(a, b, c).contains(a),
        Aabb::around(a, b, c).contains(b),
        Aabb::around(a, b, c).contains(c),
        Aabb::around(a, b, c).contains(p) <==> {
            &&& min2(a.x as int, min2(b.x as int, c.x as int)) <= p.x <= max2(
                a.x as int,
                max2(b.x as int, c.x as int),
            )
            &&& min2(a.y as int, min2(b.y as int, c.y as int)) <= p.y <= max2(
                a.y as int,
                max2(b.y as int, c.y as int),
            )
            &&& min2(a.z as int, min2(b.z as int, c.z as int)) <= p.z <= max2(
                a.z as int,
                max2(b.z as int, c.z as int),
            )
        },
        other.contains(a) && other.contains(b) && other.contains(c) ==> other.encloses(
            Aabb::around(a, b, c),
        ),
{
}

/// A box holds every point of a box that it encloses.
pub proof fn lemma_encloses_contains(a: Aabb, b: Aabb, p: Point3d)
    requires
        a.encloses(b),
        b.contains(p),
    ensures
        a.contains(p),
{
}

/// Whether `t` lies between `a` and `b`, whichever of the two is the lower.
pub open spec fn in_slab(t: int, a: int, b: int) -> bool {
    min2(a, b) <= t <= max2(a, b)
}

/// The distances at which a ray is inside a box, given for each axis the
/// two distances at which it crosses the planes that bound the box on that
/// axis: from the latest of the three entries to the earliest of the three
/// exits, or `None` where the entries do not all come before the exits.
pub open spec fn slab_span(x: (int, int), y: (int, int), z: (int, int)) -> Option<(int, int)> {
    let entry = max2(min2(x.0, x.1), max2(min2(y.0, y.1), min2(z.0, z.1)));
    let exit = min2(max2(x.0, x.1), min2(max2(y.0, y.1), max2(z.0, z.1)));
    if entry > exit {
        None
    } else {
        Some((entry, exit))
    }
}

/// The distance of a box along a ray: the entry where it lies at or in
/// front of the origin, else the exit (the origin is inside the box); `None`
/// where the ray misses the box.
pub open spec fn slab_hit(x: (int, int), y: (int, int), z: (int, int)) -> Option<int> {
    match slab_span(x, y, z) {
        Some((entry, exit)) => Some(
            if entry >= 0 {
                entry
            } else {
                exit
            },
        ),
        None => None,
    }
}

/// The span of distances at which a ray is inside a box, from the crossing
/// distances on each axis. A distance lies in the span exactly when it lies
/// in the slab of every axis.
pub fn slab_interval(x: (i32, i32), y: (i32, i32), z: (i32, i32)) -> (span: Option<(i32, i32)>)
    ensures
        match span {
            Some((entry, exit)) => slab_span(
                (x.0 as int, x.1 as int),
                (y.0 as int, y.1 as int),
                (z.0 as int, z.1 as int),
            ) == Some((entry as int, exit as int)),
            None => slab_span(
                (x.0 as int, x.1 as int),
                (y.0 as int, y.1 as int),
                (z.0 as int, z.1 as int),
            ) is None,
        },
        span matches Some((entry, exit)) ==> forall|t: int|
            entry <= t <= exit <==> in_slab(t, x.0 as int, x.1 as int) && in_slab(
                t,
                y.0 as int,
                y.1 as int,
            ) && in_slab(t, z.0 as int, z.1 as int),
        span is None ==> forall|t: int|
            !(in_slab(t, x.0 as int, x.1 as int) && in_slab(t, y.0 as int, y.1 as int) && in_slab(
                t,
                z.0 as int,
                z.1 as int,
            )),
{
    let mut tmin = x.0;
    let mut tmax = x.1;
    if tmin > tmax {
        tmin = x.1;
        tmax = x.0;
    }
    let mut tymin = y.0;
    let mut tymax = y.1;
    if tymin > tymax {
        tymin = y.1;
        tymax = y.0;
    }
    if tmin > tymax || tymin > tmax {
        return None;
    }
    if tymin > tmin {
        tmin = tymin;
    }
    if tymax < tmax {
        tmax = tymax;
    }
    let mut tzmin = z.0;
    let mut tzmax = z.1;
    if tzmin > tzmax {
        tzmin = z.1;
        tzmax = z.0;
    }
    if tmin > tzmax || tzmin > tmax {
        return None;
    }
    if tzmin > tmin {
        tmin = tzmin;
    }
    if tzmax < tmax {
        tmax = tzmax;
    }
    Some((tmin, tmax))
}

/// The distance of a box along a ray, from the crossing distances on each
/// axis: the entry where that is not negative, else the exit; `None` where
/// the ray misses the box.
pub fn slab_distance(x: (i32, i32), y: (i32, i32), z: (i32, i32)) -> (hit: Option<i32>)
    ensures
        match hit {
            Some(t) => slab_hit(
                (x.0 as int, x.1 as int),
                (y.0 as int, y.1 as int),
                (z.0 as int, z.1 as int),
            ) == Some(t as int),
            None => slab_hit(
                (x.0 as int, x.1 as int),
                (y.0 as int, y.1 as int),
                (z.0 as int, z.1 as int),
            ) is None,
        },
{
    match slab_interval(x, y, z) {
        Some((entry, exit)) => if entry >= 0 {
            Some(entry)
        } else {
            Some(exit)
        },
        None => None,
    }
}

} // verus!
