//! A scene: world-space primitives, their boxes, the centroids of the
//! boxes, and the hierarchy over them, with the search for the nearest hit
//! of a ray.
//!
//! The scene keeps primitives and lights as values that it never looks into.
//! What depends on their shape comes from the caller as functions: the box
//! of a primitive, the placing of a primitive in the world, the midpoint of
//! two coordinates, the distance at which a ray enters a box or hits a
//! primitive.

use crate::aabb::{is_centroid, Aabb, Point3d};
use crate::bvh::{
    build_bvh, ids_of, is_built, join_all, reaches, subtree_ids, tree_wf, IndexedCentroid, Node,
};
use crate::trace::{
    consider, consider_all, passes_over, search, stack_size, subtree_size, visit, visit_stack, Hit,
};
use vstd::prelude::*;

verus! {

/// The ids `0`, `1`, .. of `n` primitives.
pub open spec fn all_ids(n: nat) -> Seq<usize> {
    Seq::new(n, |i: int| i as usize)
}

/// The entry distance that `enter` gives for a box.
pub open spec fn entry_of<B: Fn(&Aabb) -> Option<i32>>(enter: B, bound: Aabb) -> Option<i32> {
    choose|r: Option<i32>| call_ensures(enter, (&bound,), r)
}

/// The distance that `distance` gives for a primitive.
pub open spec fn distance_of<D: Fn(usize) -> Option<i32>>(distance: D, id: usize) -> Option<i32> {
    choose|r: Option<i32>| call_ensures(distance, (id,), r)
}

/// The entry distances that `enter` gives for the boxes of the nodes.
pub open spec fn enter_table<B: Fn(&Aabb) -> Option<i32>>(enter: B, nodes: Seq<Node>) -> Seq<
    Option<i32>,
> {
    Seq::new(nodes.len(), |j: int| entry_of(enter, nodes[j].bound))
}

/// The distances that `distance` gives for the primitives `0`, .., `n - 1`.
pub open spec fn distance_table<D: Fn(usize) -> Option<i32>>(distance: D, n: nat) -> Seq<
    Option<i32>,
> {
    Seq::new(n, |i: int| distance_of(distance, i as usize))
}

/// Whether both functions give one answer only to each question: the same
/// box is always entered at the same distance, the same primitive always
/// hit at the same distance.
pub open spec fn answers_once<B: Fn(&Aabb) -> Option<i32>, D: Fn(usize) -> Option<i32>>(
    enter: B,
    distance: D,
) -> bool {
    &&& forall|b: Aabb, r: Option<i32>| #[trigger]
        call_ensures(enter, (&b,), r) ==> r == entry_of(enter, b)
    &&& forall|i: usize, r: Option<i32>| #[trigger]
        call_ensures(distance, (i,), r) ==> r == distance_of(distance, i)
}

/// Whether the two tables tell what the functions answer: whatever `enter`
/// answers for the box of node `j` is `et[j]`, and whatever `distance`
/// answers for primitive `i` is `dt[i]`.
pub open spec fn tells<B: Fn(&Aabb) -> Option<i32>, D: Fn(usize) -> Option<i32>>(
    enter: B,
    distance: D,
    nodes: Seq<Node>,
    n: nat,
    et: Seq<Option<i32>>,
    dt: Seq<Option<i32>>,
) -> bool {
    &&& et.len() == nodes.len()
    &&& dt.len() == n
    &&& forall|j: int, r: Option<i32>|
        0 <= j < nodes.len() && #[trigger] call_ensures(enter, (&nodes[j].bound,), r) ==> r
            == et[j]
    &&& forall|i: usize, r: Option<i32>|
        i < n && #[trigger] call_ensures(distance, (i,), r) ==> r == dt[i as int]
}

/// Where both functions give one answer only to each question, the tables
/// of their answers tell what they answer.
pub proof fn lemma_answers_once_tells<B: Fn(&Aabb) -> Option<i32>, D: Fn(usize) -> Option<i32>>(
    enter: B,
    distance: D,
    nodes: Seq<Node>,
    n: nat,
)
    requires
        answers_once(enter, distance),
    ensures
        tells(enter, distance, nodes, n, enter_table(enter, nodes), distance_table(distance, n)),
{
}

/// The centroids with the ids of their primitives: centroid `p` belongs to
/// primitive `p`.
pub open spec fn indexed(centroids: Seq<Point3d>) -> Seq<IndexedCentroid> {
    Seq::new(centroids.len(), |i: int| (i as usize, centroids[i]))
}

/// Whether `world` is what `to_world` makes of `model`, `bound` the box that
/// `bounding_box` gives for `world`, and `centroid` what `midpoint` makes of
/// that box.
pub open spec fn is_placed<P, W: Fn(&P) -> P, B: Fn(&P) -> Aabb, M: Fn(i32, i32) -> i32>(
    to_world: W,
    bounding_box: B,
    midpoint: M,
    model: P,
    world: P,
    bound: Aabb,
    centroid: Point3d,
) -> bool {
    &&& call_ensures(to_world, (&model,), world)
    &&& call_ensures(bounding_box, (&world,), bound)
    &&& is_centroid(midpoint, bound, centroid)
}

/// The best hit after primitive `id` has answered `d`.
pub fn consider_hit(best: Hit, id: usize, d: Option<i32>) -> (better: Hit)
    ensures
        better == consider(best, id, d),
{
    match d {
        Some(t) => {
            let nearer = match best {
                Some(b) => t < b.1,
                None => true,
            };
            if t >= 0 && nearer {
                Some((id, t))
            } else {
                best
            }
        },
        None => best,
    }
}

/// Whether a node whose box is entered at `entry` is passed over.
pub fn is_passed_over(best: &Hit, entry: Option<i32>) -> (over: bool)
    ensures
        over == passes_over(*best, entry),
{
    match entry {
        None => true,
        Some(e) => match best {
            Some(b) => e > b.1,
            None => false,
        },
    }
}

/// World-space primitives of type `P`, their boxes, the centroids of the
/// boxes, lights of type `L`, and the hierarchy over the boxes. Primitive `p`
/// is `primitives[p]`, its box `boundboxes[p]`, the centroid of its box
/// `centroids[p]`.
pub struct Scene<P, L> {
    pub lights: Vec<L>,
    pub primitives: Vec<P>,
    pub boundboxes: Vec<Aabb>,
    pub centroids: Vec<Point3d>,
    pub bvh_nodes: Vec<Node>,
}

impl<P, L> Scene<P, L> {
    /// Every primitive has its box, and every box its centroid.
    pub open spec fn wf(&self) -> bool {
        &&& self.primitives@.len() == self.boundboxes@.len()
        &&& self.primitives@.len() == self.centroids@.len()
    }

    /// The hierarchy is built over the primitives that the scene holds now:
    /// there are no nodes where there are no primitives; else node 0 is the
    /// root of a well-formed tree that every node belongs to and under which
    /// every primitive stands once.
    pub open spec fn accelerated(&self) -> bool {
        if self.boundboxes@.len() == 0 {
            self.bvh_nodes@.len() == 0
        } else {
            &&& tree_wf(self.bvh_nodes@, self.boundboxes@, 0)
            &&& subtree_ids(self.bvh_nodes@, 0).to_multiset() == all_ids(
                self.boundboxes@.len(),
            ).to_multiset()
            &&& forall|x: int|
                0 <= x < self.bvh_nodes@.len() ==> reaches(self.bvh_nodes@, 0, x)
        }
    }

    /// A scene without primitives, lights or nodes.
    pub fn new() -> (scene: Scene<P, L>)
        ensures
            scene.lights@.len() == 0,
            scene.primitives@.len() == 0,
            scene.boundboxes@.len() == 0,
            scene.centroids@.len() == 0,
            scene.bvh_nodes@.len() == 0,
            scene.wf(),
            scene.accelerated(),
    {
        Scene {
            lights: Vec::new(),
            primitives: Vec::new(),
            boundboxes: Vec::new(),
            centroids: Vec::new(),
            bvh_nodes: Vec::new(),
        }
    }

    /// Adds an object: each primitive of its template is placed in the world
    /// by `to_world` and appended with the box that `bounding_box` gives for
    /// the placed primitive and with the centroid that `midpoint` makes of
    /// that box. What the scene held stays in place.
    #[verifier::rlimit(40)]
    pub fn add_obj<W, B, M>(
        self,
        template: &Vec<P>,
        to_world: &W,
        bounding_box: &B,
        midpoint: &M,
    ) -> (scene: Scene<P, L>) where W: Fn(&P) -> P, B: Fn(&P) -> Aabb, M: Fn(i32, i32) -> i32
        requires
            self.wf(),
            forall|p: P| call_requires(to_world, (&p,)),
            forall|p: P| call_requires(bounding_box, (&p,)),
            forall|a: i32, b: i32| call_requires(midpoint, (a, b)),
        ensures
            scene.wf(),
            scene.lights@ == self.lights@,
            scene.bvh_nodes@ == self.bvh_nodes@,
            scene.primitives@.len() == self.primitives@.len() + template@.len(),
            scene.primitives@.take(self.primitives@.len() as int) == self.primitives@,
            scene.boundboxes@.take(self.primitives@.len() as int) == self.boundboxes@,
            scene.centroids@.take(self.primitives@.len() as int) == self.centroids@,
            forall|k: int|
                0 <= k < template@.len() ==> is_placed(
                    *to_world,
                    *bounding_box,
                    *midpoint,
                    #[trigger] template@[k],
                    scene.primitives@.skip(self.primitives@.len() as int)[k],
                    scene.boundboxes@.skip(self.primitives@.len() as int)[k],
                    scene.centroids@.skip(self.primitives@.len() as int)[k],
                ),
    {
        let ghost base = self.primitives@.len() as int;
        let mut scene = self;
        let mut k: usize = 0;
        while k < template.len()
            invariant
                k <= template@.len(),
                self.wf(),
                base == self.primitives@.len(),
                forall|p: P| call_requires(to_world, (&p,)),
                forall|p: P| call_requires(bounding_box, (&p,)),
                forall|a: i32, b: i32| call_requires(midpoint, (a, b)),
                scene.lights@ == self.lights@,
                scene.bvh_nodes@ == self.bvh_nodes@,
                scene.primitives@.len() == base + k,
                scene.boundboxes@.len() == base + k,
                scene.centroids@.len() == base + k,
                scene.primitives@.take(base) == self.primitives@,
                scene.boundboxes@.take(base) == self.boundboxes@,
                scene.centroids@.take(base) == self.centroids@,
                forall|m: int|
                    0 <= m < k ==> is_placed(
                        *to_world,
                        *bounding_box,
                        *midpoint,
                        #[trigger] template@[m],
                        scene.primitives@.skip(base)[m],
                        scene.boundboxes@.skip(base)[m],
                        scene.centroids@.skip(base)[m],
                    ),
            decreases template@.len() - k,
        {
            let ghost old_primitives = scene.primitives@;
            let ghost old_boxes = scene.boundboxes@;
            let ghost old_centroids = scene.centroids@;
            let x_world = to_world(&template[k]);
            let x_world_bb = bounding_box(&x_world);
            let x_world_bb_centroid = x_world_bb.get_centroid(midpoint);
            scene.primitives.push(x_world);
            scene.boundboxes.push(x_world_bb);
            scene.centroids.push(x_world_bb_centroid);
            proof {
                assert(scene.primitives@.take(base) =~= old_primitives.take(base));
                assert(scene.boundboxes@.take(base) =~= old_boxes.take(base));
                assert(scene.centroids@.take(base) =~= old_centroids.take(base));
                assert forall|m: int| 0 <= m < k + 1 implies is_placed(
                    *to_world,
                    *bounding_box,
                    *midpoint,
                    #[trigger] template@[m],
                    scene.primitives@.skip(base)[m],
                    scene.boundboxes@.skip(base)[m],
                    scene.centroids@.skip(base)[m],
                ) by {
                    if m < k {
                        assert(scene.primitives@.skip(base)[m] == old_primitives.skip(base)[m]);
                        assert(scene.boundboxes@.skip(base)[m] == old_boxes.skip(base)[m]);
                        assert(scene.centroids@.skip(base)[m] == old_centroids.skip(base)[m]);
                    }
                }
            }
            k += 1;
        }
        scene
    }

    /// Adds a light. Everything else stays.
    pub fn add_light(self, light: L) -> (scene: Scene<P, L>)
        ensures
            scene.lights@ == self.lights@.push(light),
            scene.primitives@ == self.primitives@,
            scene.boundboxes@ == self.boundboxes@,
            scene.centroids@ == self.centroids@,
            scene.bvh_nodes@ == self.bvh_nodes@,
    {
        let mut scene = self;
        scene.lights.push(light);
        scene
    }

    /// Builds, behind the nodes that are there, the tree over the listed
    /// primitives, and returns the index of its root.
    pub fn build_bvh<S, M>(&mut self, v: &[IndexedCentroid], spread: &S, midpoint: &M) -> (idx:
        usize) where S: Fn(i32, i32) -> i32, M: Fn(i32, i32) -> i32
        requires
            v@.len() > 0,
            forall|k: int| 0 <= k < v@.len() ==> (#[trigger] v@[k]).0 < old(self).boundboxes@.len(),
            forall|a: i32, b: i32| call_requires(spread, (a, b)),
            forall|a: i32, b: i32| call_requires(midpoint, (a, b)),
        ensures
            final(self).lights@ == old(self).lights@,
            final(self).primitives@ == old(self).primitives@,
            final(self).boundboxes@ == old(self).boundboxes@,
            final(self).centroids@ == old(self).centroids@,
            idx == old(self).bvh_nodes@.len(),
            final(self).bvh_nodes@.len() > idx,
            forall|k: int| 0 <= k < idx ==> final(self).bvh_nodes@[k] == old(self).bvh_nodes@[k],
            tree_wf(final(self).bvh_nodes@, final(self).boundboxes@, idx as int),
            subtree_ids(final(self).bvh_nodes@, idx as int).to_multiset() == ids_of(
                v@,
            ).to_multiset(),
            final(self).bvh_nodes@[idx as int].bound == join_all(
                final(self).boundboxes@,
                ids_of(v@),
            ),
            forall|x: int|
                idx <= x < final(self).bvh_nodes@.len() ==> reaches(
                    final(self).bvh_nodes@,
                    idx as int,
                    x,
                ),
            is_built(final(self).bvh_nodes@, idx as int, v@, *spread, *midpoint),
    {
        build_bvh(&mut self.bvh_nodes, &self.boundboxes, v, spread, midpoint)
    }

    /// Builds the hierarchy over all primitives of the scene, in place of
    /// the one that was there, from the centroids that the scene holds. The
    /// width of a range of centroids comes from `spread`, the value at which
    /// a range is split from `midpoint`.
    pub fn accelerate<S, M>(&mut self, spread: &S, midpoint: &M) where
        S: Fn(i32, i32) -> i32,
        M: Fn(i32, i32) -> i32,

        requires
            old(self).wf(),
            forall|a: i32, b: i32| call_requires(spread, (a, b)),
            forall|a: i32, b: i32| call_requires(midpoint, (a, b)),
        ensures
            final(self).wf(),
            final(self).accelerated(),
            final(self).lights@ == old(self).lights@,
            final(self).primitives@ == old(self).primitives@,
            final(self).boundboxes@ == old(self).boundboxes@,
            final(self).centroids@ == old(self).centroids@,
            final(self).centroids@.len() > 0 ==> is_built(
                final(self).bvh_nodes@,
                0,
                indexed(final(self).centroids@),
                *spread,
                *midpoint,
            ),
    {
        let mut centroids: Vec<IndexedCentroid> = Vec::new();
        let mut idx: usize = 0;
        while idx < self.centroids.len()
            invariant
                idx <= self.centroids@.len(),
                centroids@ == indexed(self.centroids@.take(idx as int)),
            decreases self.centroids@.len() - idx,
        {
            centroids.push((idx, self.centroids[idx]));
            proof {
                assert(centroids@ =~= indexed(self.centroids@.take(idx as int + 1)));
            }
            idx += 1;
        }
        proof {
            assert(self.centroids@.take(self.centroids@.len() as int) =~= self.centroids@);
            assert(ids_of(centroids@) =~= all_ids(self.centroids@.len()));
        }
        self.bvh_nodes = Vec::new();
        if centroids.len() > 0 {
            proof {
                assert forall|k: int| 0 <= k < centroids@.len() implies (#[trigger] centroids@[k]).0
                    < self.boundboxes@.len() by {
                    assert(centroids@[k].0 == k);
                }
            }
            self.build_bvh(centroids.as_slice(), spread, midpoint);
        }
    }

    /// The nearest hit of a ray among the primitives: the primitive's id and
    /// the distance, or `None` where the ray hits nothing in front of its
    /// origin.
    ///
    /// The ray is given by two functions. `enter` tells for a box the
    /// distance at which the ray enters it, or `None` if the ray misses it.
    /// `distance` tells for a primitive's id the distance at which the ray
    /// hits it, or `None`. A node is passed over where its box is missed or
    /// entered beyond the nearest hit so far; of an inner node the second
    /// child is searched first; a hit replaces the nearest so far where it
    /// lies in front of the origin and strictly nearer. Whatever tables tell
    /// the answers of the two functions, the result is what the search finds
    /// in them.
    #[verifier::rlimit(80)]
    pub fn cast_ray<B, D>(&self, enter: &B, distance: &D) -> (hit: Hit) where
        B: Fn(&Aabb) -> Option<i32>,
        D: Fn(usize) -> Option<i32>,

        requires
            self.wf(),
            self.accelerated(),
            forall|b: Aabb| call_requires(enter, (&b,)),
            forall|i: usize| i < self.primitives@.len() ==> call_requires(distance, (i,)),
        ensures
            self.primitives@.len() == 0 ==> hit is None,
            hit matches Some((id, t)) ==> id < self.primitives@.len() && t >= 0 && call_ensures(
                distance,
                (id,),
                Some(t),
            ),
            forall|et: Seq<Option<i32>>, dt: Seq<Option<i32>>| #[trigger]
                tells(*enter, *distance, self.bvh_nodes@, self.primitives@.len(), et, dt) ==> hit
                    == search(self.bvh_nodes@, et, dt),
            answers_once(*enter, *distance) ==> hit == search(
                self.bvh_nodes@,
                enter_table(*enter, self.bvh_nodes@),
                distance_table(*distance, self.primitives@.len()),
            ),
    {
        let mut best: Hit = None;
        if self.bvh_nodes.len() == 0 {
            return best;
        }
        let ghost nodes = self.bvh_nodes@;
        let ghost boxes = self.boundboxes@;
        let ghost n = self.primitives@.len();
        let mut node_stack: Vec<usize> = Vec::new();
        node_stack.push(0);
        proof {
            assert(node_stack@.drop_last() =~= Seq::<usize>::empty());
            assert forall|et: Seq<Option<i32>>, dt: Seq<Option<i32>>| #[trigger]
                tells(*enter, *distance, nodes, n, et, dt) implies visit_stack(
                nodes,
                et,
                dt,
                node_stack@,
                best,
            ) == search(nodes, et, dt) by {
                assert(visit_stack(nodes, et, dt, node_stack@, best) == visit(nodes, et, dt, 0, best))
                    by {
                    reveal_with_fuel(visit_stack, 2);
                }
            }
        }
        while node_stack.len() > 0
            invariant
                self.wf(),
                nodes == self.bvh_nodes@,
                boxes == self.boundboxes@,
                n == self.primitives@.len(),
                nodes.len() > 0,
                forall|b: Aabb| call_requires(enter, (&b,)),
                forall|i: usize| i < self.primitives@.len() ==> call_requires(distance, (i,)),
                forall|k: int|
                    0 <= k < node_stack@.len() ==> tree_wf(nodes, boxes, #[trigger] node_stack@[k] as int),
                best matches Some((id, t)) ==> id < self.primitives@.len() && t >= 0 && call_ensures(
                    distance,
                    (id,),
                    Some(t),
                ),
                forall|et: Seq<Option<i32>>, dt: Seq<Option<i32>>| #[trigger]
                    tells(*enter, *distance, nodes, n, et, dt) ==> visit_stack(
                        nodes,
                        et,
                        dt,
                        node_stack@,
                        best,
                    ) == search(nodes, et, dt),
            decreases stack_size(nodes, node_stack@),
        {
            let ghost stack_before = node_stack@;
            let ghost best_before = best;
            let node_idx = node_stack.pop().unwrap();
            let ghost rest = node_stack@;
            proof {
                assert(rest =~= stack_before.drop_last());
                assert(stack_before.last() == node_idx);
                assert(tree_wf(nodes, boxes, stack_before[stack_before.len() - 1] as int));
                assert forall|k: int| 0 <= k < rest.len() implies tree_wf(
                    nodes,
                    boxes,
                    #[trigger] rest[k] as int,
                ) by {
                    assert(rest[k] == stack_before[k]);
                }
            }
            let current_node = &self.bvh_nodes[node_idx];
            let entry = enter(&current_node.bound);
            if !is_passed_over(&best, entry) {
                if current_node.children.len() == 0 {
                    let mut k: usize = 0;
                    while k < current_node.pointers.len()
                        invariant
                            self.wf(),
                            nodes == self.bvh_nodes@,
                            boxes == self.boundboxes@,
                            n == self.primitives@.len(),
                            node_idx < nodes.len(),
                            *current_node == nodes[node_idx as int],
                            tree_wf(nodes, boxes, node_idx as int),
                            current_node.is_leaf(),
                            k <= current_node.pointers@.len(),
                            forall|i: usize|
                                i < self.primitives@.len() ==> call_requires(distance, (i,)),
                            best matches Some((id, t)) ==> id < self.primitives@.len() && t >= 0
                                && call_ensures(distance, (id,), Some(t)),
                            forall|et: Seq<Option<i32>>, dt: Seq<Option<i32>>| #[trigger]
                                tells(*enter, *distance, nodes, n, et, dt) ==> best == consider_all(
                                    best_before,
                                    current_node.pointers@.take(k as int),
                                    dt,
                                ),
                        decreases current_node.pointers@.len() - k,
                    {
                        let i = current_node.pointers[k];
                        let distance_to_obj = distance(i);
                        let ghost best_so_far = best;
                        best = consider_hit(best, i, distance_to_obj);
                        proof {
                            let taken = current_node.pointers@.take(k as int + 1);
                            assert(taken.drop_last() =~= current_node.pointers@.take(k as int));
                            assert(taken.last() == i);
                            assert forall|et: Seq<Option<i32>>, dt: Seq<Option<i32>>| #[trigger]
                                tells(*enter, *distance, nodes, n, et, dt) implies best
                                == consider_all(best_before, taken, dt) by {
                                assert(distance_to_obj == dt[i as int]);
                                assert(best_so_far == consider_all(
                                    best_before,
                                    current_node.pointers@.take(k as int),
                                    dt,
                                ));
                            }
                        }
                        k += 1;
                    }
                    proof {
                        assert(current_node.pointers@.take(current_node.pointers@.len() as int)
                            =~= current_node.pointers@);
                        assert forall|et: Seq<Option<i32>>, dt: Seq<Option<i32>>| #[trigger]
                            tells(*enter, *distance, nodes, n, et, dt) implies visit_stack(
                            nodes,
                            et,
                            dt,
                            rest,
                            best,
                        ) == search(nodes, et, dt) by {
                            assert(entry == et[node_idx as int]);
                            assert(visit(nodes, et, dt, node_idx as int, best_before) == best);
                            assert(visit_stack(nodes, et, dt, stack_before, best_before)
                                == visit_stack(nodes, et, dt, rest, best));
                        }
                    }
                } else {
                    let first = current_node.children[0];
                    let second = current_node.children[1];
                    node_stack.push(first);
                    node_stack.push(second);
                    proof {
                        let pushed = node_stack@;
                        assert(pushed.drop_last() =~= rest.push(first));
                        assert(rest.push(first).drop_last() =~= rest);
                        assert forall|et: Seq<Option<i32>>, dt: Seq<Option<i32>>| #[trigger]
                            tells(*enter, *distance, nodes, n, et, dt) implies visit_stack(
                            nodes,
                            et,
                            dt,
                            pushed,
                            best,
                        ) == search(nodes, et, dt) by {
                            assert(entry == et[node_idx as int]);
                            assert(visit_stack(nodes, et, dt, pushed, best) == visit_stack(
                                nodes,
                                et,
                                dt,
                                rest,
                                visit(
                                    nodes,
                                    et,
                                    dt,
                                    first as int,
                                    visit(nodes, et, dt, second as int, best),
                                ),
                            )) by {
                                reveal_with_fuel(visit_stack, 3);
                            }
                            assert(visit(nodes, et, dt, node_idx as int, best_before) == visit(
                                nodes,
                                et,
                                dt,
                                first as int,
                                visit(nodes, et, dt, second as int, best),
                            ));
                            assert(visit_stack(nodes, et, dt, stack_before, best_before)
                                == visit_stack(
                                nodes,
                                et,
                                dt,
                                rest,
                                visit(nodes, et, dt, node_idx as int, best_before),
                            ));
                        }
                        assert(stack_size(nodes, pushed) == stack_size(nodes, rest) + subtree_size(
                            nodes,
                            first as int,
                        ) + subtree_size(nodes, second as int)) by {
                            reveal_with_fuel(stack_size, 3);
                        }
                    }
                }
            } else {
                proof {
                    assert forall|et: Seq<Option<i32>>, dt: Seq<Option<i32>>| #[trigger]
                        tells(*enter, *distance, nodes, n, et, dt) implies visit_stack(
                        nodes,
                        et,
                        dt,
                        rest,
                        best,
                    ) == search(nodes, et, dt) by {
                        assert(entry == et[node_idx as int]);
                        assert(visit(nodes, et, dt, node_idx as int, best_before) == best);
                        assert(visit_stack(nodes, et, dt, stack_before, best_before)
                            == visit_stack(nodes, et, dt, rest, best));
                    }
                }
            }
        }
        proof {
            if answers_once(*enter, *distance) {
                lemma_answers_once_tells(*enter, *distance, nodes, n);
            }
        }
        best
    }
}

/// Each of the ids `0`, .., `n - 1` is listed once.
pub proof fn lemma_all_ids_once(n: nat, id: usize)
    requires
        n <= usize::MAX,
    ensures
        all_ids(n).to_multiset().count(id) == if id < n {
            1nat
        } else {
            0nat
        },
{
    let ids = all_ids(n);
    assert(ids.no_duplicates());
    ids.lemma_multiset_has_no_duplicates();
    vstd::seq_lib::to_multiset_contains(ids, id);
    if id < n {
        assert(ids[id as int] == id);
        assert(ids.contains(id));
    }
}

impl<P, L> Scene<P, L> {
    /// The box of every node encloses what stands under it: the box of an
    /// inner node is the join of the boxes of its children, the box of a
    /// leaf is the join of the boxes of its primitives.
    pub proof fn lemma_enclosure(&self, x: int)
        requires
            self.accelerated(),
            0 <= x < self.bvh_nodes@.len(),
        ensures
            !self.bvh_nodes@[x].is_leaf() ==> {
                let first = self.bvh_nodes@[self.bvh_nodes@[x].children@[0] as int].bound;
                let second = self.bvh_nodes@[self.bvh_nodes@[x].children@[1] as int].bound;
                &&& self.bvh_nodes@[x].bound == first.join(second)
                &&& self.bvh_nodes@[x].bound.encloses(first)
                &&& self.bvh_nodes@[x].bound.encloses(second)
            },
            self.bvh_nodes@[x].is_leaf() ==> {
                &&& self.bvh_nodes@[x].bound == join_all(
                    self.boundboxes@,
                    self.bvh_nodes@[x].pointers@,
                )
                &&& forall|k: int|
                    0 <= k < self.bvh_nodes@[x].pointers@.len() ==> self.bvh_nodes@[x].bound.encloses(
                        #[trigger] self.boundboxes@[self.bvh_nodes@[x].pointers@[k] as int],
                    )
            },
    {
        crate::bvh::lemma_bounds_enclose(self.bvh_nodes@, self.boundboxes@, 0, x);
    }

    /// The leaves hold every primitive: each primitive is listed by a leaf.
    pub proof fn lemma_complete(&self, id: usize) -> (x: int)
        requires
            self.accelerated(),
            id < self.boundboxes@.len(),
        ensures
            0 <= x < self.bvh_nodes@.len(),
            self.bvh_nodes@[x].is_leaf(),
            self.bvh_nodes@[x].pointers@.contains(id),
    {
        vstd::std_specs::vec::axiom_spec_len(&self.boundboxes);
        lemma_all_ids_once(self.boundboxes@.len(), id);
        vstd::seq_lib::to_multiset_contains(subtree_ids(self.bvh_nodes@, 0), id);
        crate::bvh::lemma_id_has_leaf(self.bvh_nodes@, self.boundboxes@, 0, id)
    }

    /// The leaves share no primitive: two leaves never list the same
    /// primitive, one leaf never lists a primitive twice, and every listed
    /// primitive exists.
    pub proof fn lemma_disjoint(&self, x: int, y: int, id: usize)
        requires
            self.accelerated(),
            0 <= x < self.bvh_nodes@.len(),
            0 <= y < self.bvh_nodes@.len(),
            self.bvh_nodes@[x].is_leaf(),
            self.bvh_nodes@[y].is_leaf(),
            self.bvh_nodes@[x].pointers@.contains(id),
        ensures
            id < self.boundboxes@.len(),
            self.bvh_nodes@[x].pointers@.to_multiset().count(id) == 1,
            x != y ==> !self.bvh_nodes@[y].pointers@.contains(id),
    {
        let nodes = self.bvh_nodes@;
        let boxes = self.boundboxes@;
        vstd::std_specs::vec::axiom_spec_len(&self.boundboxes);
        lemma_all_ids_once(boxes.len(), id);
        vstd::seq_lib::to_multiset_contains(nodes[x].pointers@, id);
        crate::bvh::lemma_leaf_counts(nodes, boxes, 0, x, id);
        if x != y && nodes[y].pointers@.contains(id) {
            crate::bvh::lemma_two_leaves_count(nodes, boxes, 0, x, y, id);
        }
    }

    /// The search of the hierarchy finds what the search of the primitives
    /// one by one finds: both find nothing, or both find a hit at the same
    /// distance, and no primitive is hit nearer in front of the origin. This
    /// holds for every ray whose answers for the boxes agree with its
    /// answers for the primitives.
    pub proof fn lemma_search_is_brute_force(
        &self,
        enter: Seq<Option<i32>>,
        dist: Seq<Option<i32>>,
    )
        requires
            self.accelerated(),
            dist.len() == self.boundboxes@.len(),
            crate::trace::boxes_agree(self.bvh_nodes@, enter, dist),
        ensures
            crate::trace::is_nearest(dist, search(self.bvh_nodes@, enter, dist)),
            crate::trace::is_nearest(dist, crate::trace::brute_force(dist)),
            search(self.bvh_nodes@, enter, dist) is None <==> crate::trace::brute_force(dist)
                is None,
            search(self.bvh_nodes@, enter, dist) matches Some(found) ==> (crate::trace::brute_force(
                dist,
            ) matches Some(first) && found.1 == first.1),
    {
        vstd::std_specs::vec::axiom_spec_len(&self.boundboxes);
        let nodes = self.bvh_nodes@;
        assert forall|i: usize| i < dist.len() implies #[trigger] subtree_ids(nodes, 0).contains(
            i,
        ) by {
            lemma_all_ids_once(self.boundboxes@.len(), i);
            vstd::seq_lib::to_multiset_contains(subtree_ids(nodes, 0), i);
        }
        crate::trace::lemma_search_is_nearest(nodes, self.boundboxes@, enter, dist);
    }
}

} // verus!
