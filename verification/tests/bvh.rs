use raytracer::aabb::{slab_distance, slab_interval, Aabb, Point3d};
use raytracer::bvh::{build_bvh, IndexedCentroid, Node, LEAF_THRESHOLD};
use raytracer::hit::{
    faces_away, misses_sphere, moller_trumbore, outside_triangle, sphere_distance, EPSILON, ONE,
};
use raytracer::scalar::{from_bits, to_bits, INFINITY};
use raytracer::scene::{consider_hit, is_passed_over, Scene};
use std::cell::Cell;

// ---- numbers and their coordinates ------------------------------------

fn code(f: f32) -> i32 {
    from_bits(f.to_bits()).expect("a number")
}

fn number(c: i32) -> f32 {
    f32::from_bits(to_bits(c))
}

fn midpoint(a: i32, b: i32) -> i32 {
    code((number(a) + number(b)) / 2.0)
}

fn spread(a: i32, b: i32) -> i32 {
    code(number(b) - number(a))
}

fn point(p: [f32; 3]) -> Point3d {
    Point3d::from_coords(code(p[0]), code(p[1]), code(p[2]))
}

// ---- geometry in single precision -------------------------------------

type V3 = [f32; 3];

fn sub(a: V3, b: V3) -> V3 {
    [a[0] - b[0], a[1] - b[1], a[2] - b[2]]
}

fn add(a: V3, b: V3) -> V3 {
    [a[0] + b[0], a[1] + b[1], a[2] + b[2]]
}

fn dot(a: V3, b: V3) -> f32 {
    a[0] * b[0] + a[1] * b[1] + a[2] * b[2]
}

fn cross(a: V3, b: V3) -> V3 {
    [
        a[1] * b[2] - a[2] * b[1],
        a[2] * b[0] - a[0] * b[2],
        a[0] * b[1] - a[1] * b[0],
    ]
}

fn normalize(a: V3) -> V3 {
    let inv = 1.0 / dot(a, a).sqrt();
    [a[0] * inv, a[1] * inv, a[2] * inv]
}

#[derive(Copy, Clone, Debug)]
struct Ray {
    origin: V3,
    dir: V3,
}

#[derive(Copy, Clone, Debug)]
enum Primitive {
    Triangle([V3; 3]),
    Sphere(V3, f32),
}

fn maybe(f: f32) -> Option<i32> {
    from_bits(f.to_bits())
}

fn triangle_distance(v: &[V3; 3], ray: &Ray) -> Option<i32> {
    let e1 = sub(v[1], v[0]);
    let e2 = sub(v[2], v[0]);
    let p = cross(ray.dir, e2);
    let det = maybe(dot(e1, p))?;
    if faces_away(det) {
        return None;
    }
    let inv_det = 1.0 / dot(e1, p);
    let tvec = sub(ray.origin, v[0]);
    let u = dot(tvec, p) * inv_det;
    let q = cross(tvec, e1);
    let w = dot(ray.dir, q) * inv_det;
    let t = dot(e2, q) * inv_det;
    moller_trumbore(det, maybe(u)?, maybe(w)?, maybe(u + w)?, maybe(t)?).map(|hit| hit.0)
}

fn sphere_distance_to(center: V3, radius: f32, ray: &Ray) -> Option<i32> {
    let l = sub(center, ray.origin);
    let tca = dot(l, ray.dir);
    let d2 = dot(l, l) - tca * tca;
    if misses_sphere(maybe(d2)?, maybe(radius * radius)?) {
        return None;
    }
    let thc = (radius * radius - d2).sqrt();
    sphere_distance(maybe(tca - thc)?, maybe(tca + thc)?)
}

fn distance(p: &Primitive, ray: &Ray) -> Option<i32> {
    match p {
        Primitive::Triangle(v) => triangle_distance(v, ray),
        Primitive::Sphere(c, r) => sphere_distance_to(*c, *r, ray),
    }
}

fn bounds(p: &Primitive) -> Aabb {
    match p {
        Primitive::Triangle(v) => Aabb::from_triangle(point(v[0]), point(v[1]), point(v[2])),
        Primitive::Sphere(c, r) => Aabb::from_point3d(
            point([c[0] - r, c[1] - r, c[2] - r]),
            point([c[0] + r, c[1] + r, c[2] + r]),
        ),
    }
}

fn moved(p: &Primitive, by: V3) -> Primitive {
    match p {
        Primitive::Triangle(v) => Primitive::Triangle([add(v[0], by), add(v[1], by), add(v[2], by)]),
        Primitive::Sphere(c, r) => Primitive::Sphere(add(*c, by), *r),
    }
}

/// The crossing distances of the ray with the planes of the box, per axis.
fn crossings(b: &Aabb, ray: &Ray) -> Option<[(i32, i32); 3]> {
    let lo = [number(b.min.x), number(b.min.y), number(b.min.z)];
    let hi = [number(b.max.x), number(b.max.y), number(b.max.z)];
    let mut out = [(0, 0); 3];
    for a in 0..3 {
        let t0 = (lo[a] - ray.origin[a]) / ray.dir[a];
        let t1 = (hi[a] - ray.origin[a]) / ray.dir[a];
        if t0.is_nan() || t1.is_nan() {
            return None;
        }
        out[a] = (code(t0), code(t1));
    }
    Some(out)
}

fn enter(b: &Aabb, ray: &Ray) -> Option<i32> {
    let c = crossings(b, ray)?;
    slab_interval(c[0], c[1], c[2]).map(|span| span.0)
}

type TestScene = Scene<Primitive, ()>;

fn scene_of(primitives: &Vec<Primitive>) -> TestScene {
    let mut scene = TestScene::new().add_obj(primitives, &|p: &Primitive| *p, &bounds, &midpoint);
    scene.accelerate(&spread, &midpoint);
    scene
}

fn cast(scene: &TestScene, ray: &Ray) -> Option<(usize, i32)> {
    scene.cast_ray(&|b: &Aabb| enter(b, ray), &|i: usize| distance(&scene.primitives[i], ray))
}

fn brute_force(scene: &TestScene, ray: &Ray) -> Option<(usize, i32)> {
    let mut best = None;
    for i in 0..scene.primitives.len() {
        best = consider_hit(best, i, distance(&scene.primitives[i], ray));
    }
    best
}

/// The ray through pixel (x, y) of a frame, the camera at the origin
/// looking down the negative z axis.
fn pixel_ray(x: u32, y: u32, width: u32, height: u32, fov_degrees: f32) -> Ray {
    let s = (fov_degrees / 2.0).to_radians().tan();
    let a = width as f32 / height as f32;
    let px = (2.0 * x as f32 / width as f32 - 1.0) * s * a;
    let py = (2.0 * y as f32 / height as f32 - 1.0) * s;
    Ray { origin: [0.0, 0.0, 0.0], dir: normalize([px, py, -1.0]) }
}

/// A small generator of numbers that look random.
struct Lcg(u64);

impl Lcg {
    fn next(&mut self) -> f32 {
        self.0 = self.0.wrapping_mul(6364136223846793005).wrapping_add(1442695040888963407);
        ((self.0 >> 40) as f32) / ((1u64 << 24) as f32)
    }
    fn between(&mut self, lo: f32, hi: f32) -> f32 {
        lo + (hi - lo) * self.next()
    }
}

// ---- the tree as it stands in the array -------------------------------

fn check_tree(scene: &TestScene) {
    let nodes = &scene.bvh_nodes;
    let n = scene.primitives.len();
    if n == 0 {
        assert_eq!(nodes.len(), 0);
        return;
    }
    let mut seen = vec![0usize; n];
    let mut reached = vec![false; nodes.len()];
    let mut stack = vec![0usize];
    while let Some(r) = stack.pop() {
        assert!(!reached[r]);
        reached[r] = true;
        let node = &nodes[r];
        if node.children.is_empty() {
            assert!(!node.pointers.is_empty());
            let mut join = Aabb::new();
            for &p in &node.pointers {
                seen[p] += 1;
                join = join.get_superset(scene.boundboxes[p]);
            }
            assert_eq!(node.bound, join);
        } else {
            assert_eq!(node.children.len(), 2);
            assert!(node.pointers.is_empty());
            let c0 = node.children[0];
            let c1 = node.children[1];
            assert!(c0 > r && c1 > r);
            assert_eq!(node.bound, nodes[c0].bound.get_superset(nodes[c1].bound));
            stack.push(c0);
            stack.push(c1);
        }
    }
    assert!(seen.iter().all(|&c| c == 1));
    assert!(reached.iter().all(|&r| r));
}

// ---- tests --------------------------------------------------------------

#[test]
fn coordinates_keep_the_order_of_numbers() {
    let samples = [
        f32::NEG_INFINITY,
        f32::MIN,
        -100.5,
        -1.0,
        -f32::MIN_POSITIVE,
        -0.0,
        0.0,
        f32::MIN_POSITIVE,
        0.25,
        1.0,
        3.5,
        f32::MAX,
        f32::INFINITY,
    ];
    for &a in &samples {
        for &b in &samples {
            assert_eq!(a < b, code(a) < code(b), "{} {}", a, b);
            assert_eq!(a == b, code(a) == code(b), "{} {}", a, b);
        }
    }
    assert_eq!(code(0.0), 0);
    assert_eq!(code(-0.0), 0);
    assert_eq!(code(1.0), 0x3f80_0000);
    assert_eq!(code(-1.0), -0x3f80_0000);
    assert_eq!(code(f32::INFINITY), INFINITY);
    assert_eq!(code(f32::NEG_INFINITY), -INFINITY);
    assert_eq!(from_bits(f32::NAN.to_bits()), None);
    assert_eq!(from_bits(0xffff_ffff), None);
}

#[test]
fn coordinates_give_the_number_back() {
    for &a in &[-123.25f32, -1.0, 0.0, 1.0e-30, 0.5, 77.0, f32::MAX, f32::INFINITY] {
        assert_eq!(number(code(a)).to_bits(), a.to_bits());
    }
    assert_eq!(number(code(-0.0)).to_bits(), 0.0f32.to_bits());
    assert_eq!(to_bits(-0x3f80_0000), 0xbf80_0000);
}

#[test]
fn point_constructors() {
    assert_eq!(Point3d::new(), Point3d { x: 0, y: 0, z: 0 });
    assert_eq!(Point3d::from_array(&[1, -2, 3]), Point3d { x: 1, y: -2, z: 3 });
    assert_eq!(Point3d::from_coords(4, 5, -6), Point3d { x: 4, y: 5, z: -6 });
    let p = Point3d::from_coords(4, 5, -6);
    assert_eq!((p.get(0), p.get(1), p.get(2)), (4, 5, -6));
}

#[test]
fn join_with_empty_box_changes_nothing() {
    let a = Aabb::from_point3d(point([-1.0, 2.0, -3.0]), point([4.0, 5.0, 6.0]));
    assert_eq!(Aabb::new().get_superset(a), a);
    assert_eq!(a.get_superset(Aabb::new()), a);
    assert_eq!(Aabb::new().get_superset(Aabb::new()), Aabb::new());
    assert_eq!(Aabb::new().min, Point3d::from_coords(INFINITY, INFINITY, INFINITY));
    assert_eq!(Aabb::new().max, Point3d::from_coords(-INFINITY, -INFINITY, -INFINITY));
    assert_eq!(number(Aabb::new().min.x), f32::INFINITY);
    assert_eq!(number(Aabb::new().max.z), f32::NEG_INFINITY);
}

#[test]
fn join_is_commutative_and_associative() {
    let a = Aabb::from_point3d(point([-1.0, 2.0, -3.0]), point([4.0, 5.0, 6.0]));
    let b = Aabb::from_point3d(point([0.0, -7.0, 1.0]), point([9.0, 3.0, 2.0]));
    let c = Aabb::from_point3d(point([-5.0, 0.0, 0.0]), point([-4.0, 1.0, 8.0]));
    assert_eq!(a.get_superset(b), b.get_superset(a));
    assert_eq!(a.get_superset(b).get_superset(c), a.get_superset(b.get_superset(c)));
    assert_eq!(
        a.get_superset(b),
        Aabb::from_point3d(point([-1.0, -7.0, -3.0]), point([9.0, 5.0, 6.0]))
    );
}

#[test]
fn join_keeps_the_points_of_a_box() {
    let a = Aabb::from_point3d(point([-1.0, 2.0, -3.0]), point([4.0, 5.0, 6.0]));
    let b = Aabb::from_point3d(point([10.0, 10.0, 10.0]), point([11.0, 11.0, 11.0]));
    let inside = point([0.0, 3.0, 0.0]);
    let outside = point([0.0, 0.0, 0.0]);
    assert!(a.holds(&inside));
    assert!(!a.holds(&outside));
    assert!(a.get_superset(b).holds(&inside));
    assert!(b.get_superset(a).holds(&inside));
    assert!(!Aabb::new().holds(&inside));
}

#[test]
fn box_of_a_triangle_holds_its_surface() {
    let v = [[-1.0f32, 0.5, 2.0], [3.0, -2.0, 0.0], [0.0, 4.0, -1.0]];
    let b = Aabb::from_triangle(point(v[0]), point(v[1]), point(v[2]));
    assert_eq!(b, Aabb::from_point3d(point([-1.0, -2.0, -1.0]), point([3.0, 4.0, 2.0])));
    let mut rng = Lcg(7);
    for _ in 0..200 {
        let mut alpha = rng.next();
        let mut beta = rng.next();
        if alpha + beta > 1.0 {
            alpha = 1.0 - alpha;
            beta = 1.0 - beta;
        }
        let e1 = sub(v[1], v[0]);
        let e2 = sub(v[2], v[0]);
        let p = [
            v[0][0] + alpha * e1[0] + beta * e2[0],
            v[0][1] + alpha * e1[1] + beta * e2[1],
            v[0][2] + alpha * e1[2] + beta * e2[2],
        ];
        let grown = Aabb::from_point3d(
            point([-1.0 - 1e-5, -2.0 - 1e-5, -1.0 - 1e-5]),
            point([3.0 + 1e-5, 4.0 + 1e-5, 2.0 + 1e-5]),
        );
        assert!(grown.holds(&point(p)));
    }
}

#[test]
fn centroid_is_made_by_the_midpoint_function() {
    let b = Aabb::from_point3d(point([-1.0, 2.0, -3.0]), point([4.0, 5.0, 7.0]));
    assert_eq!(b.get_centroid(&midpoint), point([1.5, 3.5, 2.0]));
    assert_eq!(b._get_min(), point([-1.0, 2.0, -3.0]));
    assert_eq!(b._get_max(), point([4.0, 5.0, 7.0]));
}

#[test]
fn slab_test_of_an_axis_aligned_ray() {
    let b = Aabb::from_point3d(point([0.0, 0.0, 0.0]), point([1.0, 1.0, 1.0]));
    let ray = Ray { origin: [-1.0, 0.5, 0.5], dir: [1.0, 0.0, 0.0] };
    let c = crossings(&b, &ray).unwrap();
    assert_eq!(c[0], (code(1.0), code(2.0)));
    assert_eq!(c[1], (code(f32::NEG_INFINITY), code(f32::INFINITY)));
    assert_eq!(slab_distance(c[0], c[1], c[2]), Some(code(1.0)));
    assert_eq!(slab_interval(c[0], c[1], c[2]), Some((code(1.0), code(2.0))));
}

#[test]
fn slab_test_misses_and_inside() {
    let one = code(1.0);
    let two = code(2.0);
    let three = code(3.0);
    let four = code(4.0);
    // the slabs of x and y do not overlap
    assert_eq!(slab_interval((one, two), (three, four), (one, four)), None);
    assert_eq!(slab_distance((one, two), (three, four), (one, four)), None);
    // crossings may come in either order
    assert_eq!(slab_interval((four, one), (three, two), (one, four)), Some((two, three)));
    // the origin is inside: the entry lies behind it, the exit is reported
    let back = code(-1.0);
    assert_eq!(slab_interval((back, two), (back, three), (back, four)), Some((back, two)));
    assert_eq!(slab_distance((back, two), (back, three), (back, four)), Some(two));
    // the box lies behind the origin
    let far_back = code(-5.0);
    assert_eq!(slab_distance((far_back, back), (far_back, back), (far_back, back)), Some(back));
}

#[test]
fn nearest_hit_bookkeeping() {
    assert_eq!(consider_hit(None, 3, None), None);
    assert_eq!(consider_hit(None, 3, Some(5)), Some((3, 5)));
    assert_eq!(consider_hit(None, 3, Some(0)), Some((3, 0)));
    assert_eq!(consider_hit(None, 3, Some(-1)), None);
    assert_eq!(consider_hit(Some((1, 5)), 3, Some(4)), Some((3, 4)));
    assert_eq!(consider_hit(Some((1, 5)), 3, Some(5)), Some((1, 5)));
    assert_eq!(consider_hit(Some((1, 5)), 3, Some(6)), Some((1, 5)));
    assert_eq!(consider_hit(Some((1, 5)), 3, Some(-2)), Some((1, 5)));
    assert!(is_passed_over(&None, None));
    assert!(!is_passed_over(&None, Some(100)));
    assert!(is_passed_over(&Some((1, 5)), Some(6)));
    assert!(!is_passed_over(&Some((1, 5)), Some(5)));
    assert!(!is_passed_over(&Some((1, 5)), Some(-3)));
}

#[test]
fn node_new_is_bare() {
    let b = Aabb::from_point3d(point([0.0, 0.0, 0.0]), point([1.0, 1.0, 1.0]));
    let node = Node::new(b);
    assert!(node.children.is_empty());
    assert!(node.pointers.is_empty());
    assert_eq!(node.bound, b);
}

#[test]
fn empty_scene_builds_no_nodes_and_hits_nothing() {
    let mut scene = TestScene::new();
    scene.accelerate(&spread, &midpoint);
    assert_eq!(scene.bvh_nodes.len(), 0);
    let ray = Ray { origin: [0.0, 0.0, 0.0], dir: [0.0, 0.0, -1.0] };
    assert_eq!(cast(&scene, &ray), None);
}

#[test]
fn few_primitives_make_one_leaf() {
    let primitives: Vec<Primitive> =
        (0..7).map(|i| Primitive::Sphere([i as f32 * 3.0, 0.0, -10.0], 1.0)).collect();
    let scene = scene_of(&primitives);
    assert_eq!(scene.bvh_nodes.len(), 1);
    assert_eq!(scene.bvh_nodes[0].pointers, vec![0, 1, 2, 3, 4, 5, 6]);
    assert!(scene.bvh_nodes[0].children.is_empty());
    assert_eq!(
        scene.bvh_nodes[0].bound,
        Aabb::from_point3d(point([-1.0, -1.0, -11.0]), point([19.0, 1.0, -9.0]))
    );
    check_tree(&scene);
}

#[test]
fn eight_primitives_are_split_at_the_middle_of_the_widest_axis() {
    assert_eq!(LEAF_THRESHOLD, 8);
    // centroids at y = 0, 2, .., 14: the widest axis is y, the middle 7
    let primitives: Vec<Primitive> =
        (0..8).map(|i| Primitive::Sphere([0.0, i as f32 * 2.0, -10.0], 0.5)).collect();
    let scene = scene_of(&primitives);
    assert_eq!(scene.bvh_nodes.len(), 3);
    assert_eq!(scene.bvh_nodes[0].children, vec![1, 2]);
    assert!(scene.bvh_nodes[0].pointers.is_empty());
    assert_eq!(scene.bvh_nodes[1].pointers, vec![0, 1, 2, 3]);
    assert_eq!(scene.bvh_nodes[2].pointers, vec![4, 5, 6, 7]);
    assert_eq!(
        scene.bvh_nodes[0].bound,
        Aabb::from_point3d(point([-0.5, -0.5, -10.5]), point([0.5, 14.5, -9.5]))
    );
    assert_eq!(
        scene.bvh_nodes[1].bound,
        Aabb::from_point3d(point([-0.5, -0.5, -10.5]), point([0.5, 6.5, -9.5]))
    );
    check_tree(&scene);
}

#[test]
fn coinciding_centroids_make_one_leaf() {
    let primitives: Vec<Primitive> =
        (0..20).map(|i| Primitive::Sphere([1.0, 2.0, -10.0], 1.0 + i as f32)).collect();
    let scene = scene_of(&primitives);
    assert_eq!(scene.bvh_nodes.len(), 1);
    assert_eq!(scene.bvh_nodes[0].pointers.len(), 20);
    check_tree(&scene);
}

#[test]
fn one_sided_split_falls_back_to_a_leaf() {
    // a midpoint function that answers with the highest coordinate puts
    // every centroid but the highest below it; one that answers with the
    // lowest puts none below it
    let primitives: Vec<Primitive> =
        (0..9).map(|i| Primitive::Sphere([i as f32, 0.0, -10.0], 0.25)).collect();
    let mut scene = TestScene::new().add_obj(&primitives, &|p: &Primitive| *p, &bounds, &midpoint);
    scene.accelerate(&spread, &|lo: i32, _hi: i32| lo);
    assert_eq!(scene.bvh_nodes.len(), 1);
    assert_eq!(scene.bvh_nodes[0].pointers, vec![0, 1, 2, 3, 4, 5, 6, 7, 8]);
    check_tree(&scene);
}

#[test]
fn hierarchy_is_built_over_the_centroids_that_the_scene_holds() {
    let primitives: Vec<Primitive> =
        (0..9).map(|i| Primitive::Sphere([i as f32, 0.0, -10.0], 0.25)).collect();
    let mut scene = TestScene::new().add_obj(&primitives, &|p: &Primitive| *p, &bounds, &midpoint);
    assert_eq!(scene.centroids.len(), 9);
    for i in 0..9 {
        assert_eq!(scene.centroids[i], point([i as f32, 0.0, -10.0]));
    }
    scene.accelerate(&spread, &midpoint);
    // nine centroids in a row are split at the middle of the row
    assert_eq!(scene.bvh_nodes.len(), 3);
    assert_eq!(scene.bvh_nodes[0].pointers, Vec::<usize>::new());
    check_tree(&scene);
    // with all centroids in one place there is nothing to split
    for c in scene.centroids.iter_mut() {
        *c = point([1.0, 1.0, 1.0]);
    }
    scene.accelerate(&spread, &midpoint);
    assert_eq!(scene.bvh_nodes.len(), 1);
    assert_eq!(scene.bvh_nodes[0].pointers, vec![0, 1, 2, 3, 4, 5, 6, 7, 8]);
    assert_eq!(scene.centroids.len(), 9);
}

#[test]
fn build_appends_behind_the_nodes_that_are_there() {
    let boxes = vec![
        Aabb::from_point3d(point([0.0, 0.0, 0.0]), point([1.0, 1.0, 1.0])),
        Aabb::from_point3d(point([2.0, 0.0, 0.0]), point([3.0, 1.0, 1.0])),
    ];
    let mut nodes = vec![Node::new(Aabb::new())];
    let v: Vec<IndexedCentroid> = vec![(1, point([2.5, 0.5, 0.5])), (0, point([0.5, 0.5, 0.5]))];
    let idx = build_bvh(&mut nodes, &boxes, &v, &spread, &midpoint);
    assert_eq!(idx, 1);
    assert_eq!(nodes.len(), 2);
    assert_eq!(nodes[0].bound, Aabb::new());
    assert_eq!(nodes[1].pointers, vec![1, 0]);
    assert_eq!(
        nodes[1].bound,
        Aabb::from_point3d(point([0.0, 0.0, 0.0]), point([3.0, 1.0, 1.0]))
    );
}

#[test]
fn add_obj_keeps_arrays_parallel() {
    let template = vec![
        Primitive::Sphere([0.0, 0.0, 0.0], 1.0),
        Primitive::Triangle([[0.0, 0.0, 0.0], [1.0, 0.0, 0.0], [0.0, 1.0, 0.0]]),
    ];
    let scene = TestScene::new()
        .add_obj(&template, &|p: &Primitive| moved(p, [5.0, 0.0, 0.0]), &bounds, &midpoint)
        .add_obj(&template, &|p: &Primitive| moved(p, [-5.0, 0.0, 0.0]), &bounds, &midpoint)
        .add_light(())
        .add_light(());
    assert_eq!(scene.primitives.len(), 4);
    assert_eq!(scene.boundboxes.len(), 4);
    assert_eq!(scene.centroids.len(), 4);
    assert_eq!(scene.lights.len(), 2);
    assert_eq!(scene.bvh_nodes.len(), 0);
    assert_eq!(
        scene.boundboxes[0],
        Aabb::from_point3d(point([4.0, -1.0, -1.0]), point([6.0, 1.0, 1.0]))
    );
    assert_eq!(
        scene.boundboxes[3],
        Aabb::from_point3d(point([-5.0, 0.0, 0.0]), point([-4.0, 1.0, 0.0]))
    );
    assert_eq!(scene.centroids[0], point([5.0, 0.0, 0.0]));
    assert_eq!(scene.centroids[3], point([-4.5, 0.5, 0.0]));
    for i in 0..4 {
        assert_eq!(scene.boundboxes[i], bounds(&scene.primitives[i]));
        assert_eq!(scene.centroids[i], scene.boundboxes[i].get_centroid(&midpoint));
        assert!(scene.boundboxes[i].holds(&scene.centroids[i]));
        assert!(scene.boundboxes[i].min.x <= scene.boundboxes[i].max.x);
    }
}

#[test]
fn single_sphere_centered_view() {
    let scene = scene_of(&vec![Primitive::Sphere([0.0, 0.0, -5.0], 1.0)]);
    let center = cast(&scene, &pixel_ray(16, 16, 32, 32, 35.0));
    let (id, t) = center.expect("the centre pixel sees the sphere");
    assert_eq!(id, 0);
    assert!((number(t) - 4.0).abs() < 1e-5);
    for &(x, y) in &[(0, 0), (31, 0), (0, 31), (31, 31)] {
        assert_eq!(cast(&scene, &pixel_ray(x, y, 32, 32, 35.0)), None);
    }
}

#[test]
fn sphere_round_trip() {
    let mut rng = Lcg(11);
    for _ in 0..200 {
        let center = [rng.between(-5.0, 5.0), rng.between(-5.0, 5.0), rng.between(-5.0, 5.0)];
        let radius = rng.between(0.5, 2.0);
        let away = normalize([rng.between(-1.0, 1.0), rng.between(-1.0, 1.0), rng.between(0.1, 1.0)]);
        let far = rng.between(3.0, 10.0);
        let origin = [center[0] + away[0] * far, center[1] + away[1] * far, center[2] + away[2] * far];
        let ray = Ray { origin, dir: normalize(sub(center, origin)) };
        let scene = scene_of(&vec![Primitive::Sphere(center, radius)]);
        let (id, t) = cast(&scene, &ray).expect("aimed at the centre");
        assert_eq!(id, 0);
        let expected = dot(sub(center, origin), sub(center, origin)).sqrt() - radius;
        assert!((number(t) - expected).abs() < 1e-4, "{} {}", number(t), expected);
    }
}

#[test]
fn two_triangles_forming_a_quad() {
    let t1 = Primitive::Triangle([[-1.0, -1.0, -5.0], [1.0, -1.0, -5.0], [1.0, 1.0, -5.0]]);
    let t2 = Primitive::Triangle([[-1.0, -1.0, -5.0], [1.0, 1.0, -5.0], [-1.0, 1.0, -5.0]]);
    let scene = scene_of(&vec![t1, t2]);
    let mut rng = Lcg(3);
    for _ in 0..500 {
        let x = rng.between(-3.0, 3.0);
        let y = rng.between(-3.0, 3.0);
        let ray = Ray { origin: [0.0, 0.0, 0.0], dir: normalize([x, y, -5.0]) };
        let hit = cast(&scene, &ray);
        if x.abs() < 0.999 && y.abs() < 0.999 {
            let (_, t) = hit.expect("through the quad");
            let expected = dot([x, y, -5.0], [x, y, -5.0]).sqrt();
            assert!((number(t) - expected).abs() < 1e-3);
        } else if x.abs() > 1.001 || y.abs() > 1.001 {
            assert_eq!(hit, None);
        }
        assert_eq!(hit, brute_force(&scene, &ray));
    }
}

#[test]
fn triangle_round_trip() {
    let v = [[-1.0f32, -1.0, -5.0], [2.0, -1.0, -6.0], [0.0, 1.5, -4.0]];
    let scene = scene_of(&vec![Primitive::Triangle(v)]);
    let normal = normalize(cross(sub(v[1], v[0]), sub(v[2], v[0])));
    let mut rng = Lcg(5);
    for _ in 0..300 {
        let mut alpha = rng.between(0.01, 0.99);
        let mut beta = rng.between(0.01, 0.99);
        if alpha + beta > 0.99 {
            alpha = (1.0 - alpha) * 0.98;
            beta = (1.0 - beta) * 0.98;
        }
        let e1 = sub(v[1], v[0]);
        let e2 = sub(v[2], v[0]);
        let p = [
            v[0][0] + alpha * e1[0] + beta * e2[0],
            v[0][1] + alpha * e1[1] + beta * e2[1],
            v[0][2] + alpha * e1[2] + beta * e2[2],
        ];
        // an origin on the side that the face normal points to
        let side = [rng.between(-0.5, 0.5), rng.between(-0.5, 0.5), rng.between(-0.5, 0.5)];
        let back = rng.between(2.0, 6.0);
        let origin = [
            p[0] + normal[0] * back + side[0],
            p[1] + normal[1] * back + side[1],
            p[2] + normal[2] * back + side[2],
        ];
        let to_p = sub(p, origin);
        let ray = Ray { origin, dir: normalize(to_p) };
        let (id, t) = cast(&scene, &ray).expect("aimed at the triangle");
        assert_eq!(id, 0);
        assert!((number(t) - dot(to_p, to_p).sqrt()).abs() < 1e-3);
    }
}

#[test]
fn degenerate_triangle_is_never_hit() {
    let scene = scene_of(&vec![Primitive::Triangle([[0.0; 3], [0.0; 3], [0.0; 3]])]);
    assert_eq!(scene.bvh_nodes.len(), 1);
    let mut rng = Lcg(13);
    for _ in 0..500 {
        let origin = [rng.between(-3.0, 3.0), rng.between(-3.0, 3.0), rng.between(-3.0, 3.0)];
        let ray = Ray { origin, dir: normalize(sub([0.0, 0.0, 0.0], origin)) };
        assert_eq!(cast(&scene, &ray), None);
        let dir = normalize([rng.between(-1.0, 1.0), rng.between(-1.0, 1.0), rng.between(0.1, 1.0)]);
        assert_eq!(cast(&scene, &Ray { origin, dir }), None);
    }
}

fn cube() -> Vec<Primitive> {
    let c = |i: usize| -> V3 {
        [
            if i & 1 == 0 { -1.0 } else { 1.0 },
            if i & 2 == 0 { -1.0 } else { 1.0 },
            if i & 4 == 0 { -1.0 } else { 1.0 },
        ]
    };
    let faces: [[usize; 4]; 6] = [
        [0, 1, 3, 2],
        [4, 6, 7, 5],
        [0, 4, 5, 1],
        [2, 3, 7, 6],
        [0, 2, 6, 4],
        [1, 5, 7, 3],
    ];
    let mut out = Vec::new();
    for f in &faces {
        out.push(Primitive::Triangle([c(f[0]), c(f[1]), c(f[2])]));
        out.push(Primitive::Triangle([c(f[0]), c(f[2]), c(f[3])]));
    }
    out
}

#[test]
fn instanced_mesh() {
    let template = cube();
    assert_eq!(template.len(), 12);
    let mut scene = TestScene::new()
        .add_obj(&template, &|p: &Primitive| moved(p, [5.0, 0.0, 0.0]), &bounds, &midpoint)
        .add_obj(&template, &|p: &Primitive| moved(p, [-5.0, 0.0, 0.0]), &bounds, &midpoint);
    scene.accelerate(&spread, &midpoint);
    assert_eq!(scene.primitives.len(), 24);
    assert_eq!(scene.boundboxes.len(), 24);
    assert_eq!(scene.centroids.len(), 24);
    let root = scene.bvh_nodes[0].bound;
    assert_eq!(root, Aabb::from_point3d(point([-6.0, -1.0, -1.0]), point([6.0, 1.0, 1.0])));
    for corner in [[4.0, -1.0, -1.0], [6.0, 1.0, 1.0], [-6.0, -1.0, -1.0], [-4.0, 1.0, 1.0]] {
        assert!(root.holds(&point(corner)));
    }
    check_tree(&scene);
}

#[test]
fn miss_visits_the_root_only() {
    let mut rng = Lcg(17);
    let primitives: Vec<Primitive> = (0..500)
        .map(|_| {
            Primitive::Sphere(
                [rng.between(-10.0, 10.0), rng.between(-10.0, 10.0), rng.between(-10.0, 10.0)],
                0.5,
            )
        })
        .collect();
    let scene = scene_of(&primitives);
    let ray = Ray { origin: [0.0, 0.0, 100.0], dir: normalize([0.1, 0.2, 1.0]) };
    let visits = Cell::new(0usize);
    let hit = scene.cast_ray(
        &|b: &Aabb| {
            visits.set(visits.get() + 1);
            // a box behind the origin is no box in front of it
            let c = crossings(b, &ray)?;
            match slab_interval(c[0], c[1], c[2]) {
                Some((_, exit)) if exit < 0 => None,
                Some((entry, _)) => Some(entry),
                None => None,
            }
        },
        &|i: usize| distance(&scene.primitives[i], &ray),
    );
    assert_eq!(hit, None);
    assert_eq!(visits.get(), 1);
    assert_eq!(brute_force(&scene, &ray), None);
}

#[test]
fn bvh_stress() {
    let mut rng = Lcg(2024);
    let primitives: Vec<Primitive> = (0..10_000)
        .map(|_| {
            Primitive::Sphere(
                [rng.between(-100.0, 100.0), rng.between(-100.0, 100.0), rng.between(-100.0, 100.0)],
                rng.between(0.5, 2.0),
            )
        })
        .collect();
    let scene = scene_of(&primitives);
    check_tree(&scene);
    let mut hits = 0;
    for _ in 0..1_000 {
        let origin = [rng.between(-100.0, 100.0), rng.between(-100.0, 100.0), rng.between(-100.0, 100.0)];
        let dir = normalize([rng.between(-1.0, 1.0), rng.between(-1.0, 1.0), rng.between(-1.0, 1.0)]);
        let ray = Ray { origin, dir };
        let found = cast(&scene, &ray);
        let expected = brute_force(&scene, &ray);
        assert_eq!(found.map(|h| h.1), expected.map(|h| h.1));
        if let Some((id, t)) = found {
            hits += 1;
            assert_eq!(distance(&scene.primitives[id], &ray), Some(t));
        }
    }
    assert!(hits > 0);
}

#[test]
fn triangle_decisions() {
    assert_eq!(code(0.001), EPSILON);
    assert_eq!(code(1.0), ONE);
    let half = code(0.5);
    let quarter = code(0.25);
    let t = code(7.5);
    let det = code(2.0);
    assert_eq!(moller_trumbore(det, half, quarter, code(0.75), t), Some((t, half, quarter)));
    // on the edges and at the corners
    assert_eq!(moller_trumbore(det, 0, 0, 0, t), Some((t, 0, 0)));
    assert_eq!(moller_trumbore(det, ONE, 0, ONE, t), Some((t, ONE, 0)));
    assert_eq!(moller_trumbore(det, half, half, ONE, t), Some((t, half, half)));
    assert_eq!(moller_trumbore(EPSILON, half, quarter, code(0.75), t), Some((t, half, quarter)));
    // seen from behind, edge-on, or too thin
    assert_eq!(moller_trumbore(code(-2.0), half, quarter, code(0.75), t), None);
    assert_eq!(moller_trumbore(0, half, quarter, code(0.75), t), None);
    assert_eq!(moller_trumbore(EPSILON - 1, half, quarter, code(0.75), t), None);
    assert!(faces_away(code(0.000999)));
    assert!(!faces_away(code(0.001)));
    // outside
    assert_eq!(moller_trumbore(det, code(-0.1), quarter, code(0.15), t), None);
    assert_eq!(moller_trumbore(det, code(1.5), 0, code(1.5), t), None);
    assert_eq!(moller_trumbore(det, half, code(-0.25), quarter, t), None);
    assert_eq!(moller_trumbore(det, half, code(0.75), code(1.25), t), None);
    assert!(outside_triangle(ONE + 1, 0, ONE + 1));
    assert!(!outside_triangle(ONE, 0, ONE));
    // a point behind the origin is no hit; one at the origin is
    assert_eq!(moller_trumbore(det, half, quarter, code(0.75), code(-3.0)), None);
    assert_eq!(moller_trumbore(det, half, quarter, code(0.75), -1), None);
    assert_eq!(moller_trumbore(det, half, quarter, code(0.75), 0), Some((0, half, quarter)));
}

#[test]
fn triangle_behind_the_origin_is_not_hit() {
    // seen from its front, but the ray leads away from it
    let tri = [[-1.0, -1.0, 5.0], [1.0, -1.0, 5.0], [0.0, 1.0, 5.0]];
    let away = Ray { origin: [0.0, 0.0, 0.0], dir: [0.0, 0.0, -1.0] };
    assert_eq!(distance(&Primitive::Triangle(tri), &away), None);
    let scene = scene_of(&vec![Primitive::Triangle(tri)]);
    assert_eq!(cast(&scene, &away), None);
    // the same triangle in front of the origin
    let tri = [[-1.0, -1.0, -5.0], [1.0, -1.0, -5.0], [0.0, 1.0, -5.0]];
    assert_eq!(distance(&Primitive::Triangle(tri), &away), Some(code(5.0)));
}

#[test]
fn sphere_without_radius_is_never_hit() {
    let ray = Ray { origin: [0.0, 0.0, 0.0], dir: [0.0, 0.0, -1.0] };
    assert_eq!(sphere_distance_to([0.0, 0.0, -5.0], 0.0, &ray), None);
    assert_eq!(sphere_distance_to([0.0, 0.0, -5.0], 1.0, &ray), Some(code(4.0)));
    let scene = scene_of(&vec![Primitive::Sphere([0.0, 0.0, -5.0], 0.0)]);
    assert_eq!(scene.bvh_nodes.len(), 1);
    assert_eq!(cast(&scene, &ray), None);
}

#[test]
fn sphere_decisions() {
    assert!(misses_sphere(code(4.1), code(4.0)));
    assert!(!misses_sphere(code(4.0), code(4.0)));
    assert!(!misses_sphere(code(0.0), code(4.0)));
    // a sphere without radius is passed by, even through its centre
    assert!(misses_sphere(0, 0));
    assert!(misses_sphere(code(1.0), 0));
    assert!(!misses_sphere(0, 1));
    assert_eq!(sphere_distance(code(3.0), code(5.0)), Some(code(3.0)));
    assert_eq!(sphere_distance(0, code(5.0)), Some(0));
    assert_eq!(sphere_distance(code(-1.0), code(5.0)), Some(code(5.0)));
    assert_eq!(sphere_distance(code(-1.0), 0), Some(0));
    assert_eq!(sphere_distance(code(-5.0), code(-1.0)), None);
}
