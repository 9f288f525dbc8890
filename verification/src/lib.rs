//! The bookkeeping of a ray tracer: what it takes to find the nearest
//! primitive that a ray hits, and to share the rendering of a frame among
//! workers.
//!
//! Nothing here computes with real numbers. A coordinate or a distance is
//! an `i32` that is ordered as the number it stands for ([`scalar`] gives
//! the coordinate of a number in the IEEE 754 single format), and whatever
//! needs more than that order comes from the caller as a function: the
//! midpoint of two coordinates, the box of a primitive, the distance at
//! which a ray enters a box or hits a primitive.
//!
//! - [`aabb`]: points, axis-aligned boxes and their join; the slab test
//!   from the distances at which a ray crosses the planes of a box.
//! - [`hit`]: the decisions of the triangle and the sphere test.
//! - [`bvh`]: the bounding-volume hierarchy and how it is built.
//! - [`trace`]: the search for the nearest hit, as mathematics.
//! - [`scene`]: primitives, boxes, centroids and hierarchy together, and
//!   the search itself.
//! - [`octree`]: an octree over the same boxes.
//! - [`wfobj`], [`triobj`]: templates of triangles, from Wavefront OBJ text
//!   or from a single triangle.
//! - [`tiles`]: a frame cut into tiles.

pub mod aabb;
pub mod bvh;
pub mod hit;
pub mod octree;
pub mod scalar;
pub mod scene;
pub mod tiles;
pub mod trace;
pub mod triobj;
pub mod wfobj;
