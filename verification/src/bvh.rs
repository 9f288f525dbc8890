//! A bounding-volume hierarchy: a binary tree of boxes over the boxes of a
//! scene's primitives, kept in one array of nodes.
//!
//! A primitive is known here by its id, the index of its box. The tree is
//! built over the centroids of the boxes. A node stands before all nodes of
//! its subtree, so the node that was built first is the root.

use crate::aabb::{Aabb, Point3d, AXES};
use vstd::multiset::Multiset;
use vstd::prelude::*;

verus! {

/// A set of primitives is not split further once it has fewer members.
pub const LEAF_THRESHOLD: usize = 8;

/// A primitive's id and the centroid of its box.
pub type IndexedCentroid = (usize, Point3d);

/// A node of the hierarchy. A leaf has no children and lists the ids of its
/// primitives in `pointers`; an inner node has no pointers and names its two
/// children by their indices.
#[derive(Debug)]
pub struct Node {
    pub children: Vec<usize>,
    pub pointers: Vec<usize>,
    pub bound: Aabb,
}

impl Node {
    /// A node with the given box and neither children nor pointers.
    pub fn new(bound: Aabb) -> (node: Node)
        ensures
            node.children@ == Seq::<usize>::empty(),
            node.pointers@ == Seq::<usize>::empty(),
            node.bound == bound,
    {
        Node { children: Vec::<usize>::new(), pointers: Vec::<usize>::new(), bound }
    }

    /// Whether the node is a leaf.
    pub open spec fn is_leaf(&self) -> bool {
        self.children@.len() == 0
    }
}

/// The ids of a list of centroids, in its order.
pub open spec fn ids_of(v: Seq<IndexedCentroid>) -> Seq<usize> {
    v.map_values(|e: IndexedCentroid| e.0)
}

/// The join of the boxes of the listed primitives.
pub open spec fn join_all(boxes: Seq<Aabb>, ids: Seq<usize>) -> Aabb
    decreases ids.len(),
{
    if ids.len() == 0 {
        Aabb::empty()
    } else {
        join_all(boxes, ids.drop_last()).join(boxes[ids.last() as int])
    }
}

/// Whether `bound` is the smallest box that encloses the empty box and the
/// box of every listed primitive: it encloses them, and every box that
/// encloses them encloses it.
pub open spec fn is_least_bound(bound: Aabb, boxes: Seq<Aabb>, ids: Seq<usize>) -> bool {
    &&& bound.encloses(Aabb::empty())
    &&& forall|k: int| 0 <= k < ids.len() ==> bound.encloses(#[trigger] boxes[ids[k] as int])
    &&& forall|other: Aabb|
        other.encloses(Aabb::empty()) && (forall|k: int|
            0 <= k < ids.len() ==> other.encloses(#[trigger] boxes[ids[k] as int]))
            ==> #[trigger] other.encloses(bound)
}

/// The join of the listed boxes is the smallest box that encloses them all
/// and the empty box.
pub proof fn lemma_join_all_least(boxes: Seq<Aabb>, ids: Seq<usize>)
    ensures
        is_least_bound(join_all(boxes, ids), boxes, ids),
    decreases ids.len(),
{
    if ids.len() > 0 {
        let front = ids.drop_last();
        lemma_join_all_least(boxes, front);
        let before = join_all(boxes, front);
        let last = boxes[ids.last() as int];
        let all = before.join(last);
        assert forall|k: int| 0 <= k < ids.len() implies all.encloses(
            #[trigger] boxes[ids[k] as int],
        ) by {
            if k < front.len() {
                assert(before.encloses(boxes[front[k] as int]));
            }
        }
        assert forall|other: Aabb|
            other.encloses(Aabb::empty()) && (forall|k: int|
                0 <= k < ids.len() ==> other.encloses(#[trigger] boxes[ids[k] as int]))
            implies #[trigger] other.encloses(all) by {
            assert forall|k: int| 0 <= k < front.len() implies other.encloses(
                #[trigger] boxes[front[k] as int],
            ) by {
                assert(other.encloses(boxes[ids[k] as int]));
            }
            assert(other.encloses(before));
            assert(other.encloses(boxes[ids[ids.len() - 1] as int]));
        }
    }
}

/// Two lists that name the same primitives, in whatever order and however
/// often, have the same join.
pub proof fn lemma_join_all_same_members(boxes: Seq<Aabb>, a: Seq<usize>, b: Seq<usize>)
    requires
        forall|id: usize| a.contains(id) <==> b.contains(id),
    ensures
        join_all(boxes, a) == join_all(boxes, b),
{
    lemma_join_all_least(boxes, a);
    lemma_join_all_least(boxes, b);
    let ja = join_all(boxes, a);
    let jb = join_all(boxes, b);
    assert forall|k: int| 0 <= k < a.len() implies jb.encloses(#[trigger] boxes[a[k] as int]) by {
        assert(a.contains(a[k]));
        let m = choose|m: int| 0 <= m < b.len() && b[m] == a[k];
        assert(jb.encloses(boxes[b[m] as int]));
    }
    assert forall|k: int| 0 <= k < b.len() implies ja.encloses(#[trigger] boxes[b[k] as int]) by {
        assert(b.contains(b[k]));
        let m = choose|m: int| 0 <= m < a.len() && a[m] == b[k];
        assert(ja.encloses(boxes[a[m] as int]));
    }
    assert(jb.encloses(ja));
    assert(ja.encloses(jb));
}

/// The ids of the primitives under node `r`: those of a leaf in the order of
/// its pointers, those of an inner node as the ids under its first child
/// followed by the ids under its second.
pub open spec fn subtree_ids(nodes: Seq<Node>, r: int) -> Seq<usize>
    decreases nodes.len() - r,
{
    if 0 <= r < nodes.len() && nodes[r].children@.len() == 2 && r < nodes[r].children@[0]
        < nodes.len() && r < nodes[r].children@[1] < nodes.len() {
        subtree_ids(nodes, nodes[r].children@[0] as int) + subtree_ids(
            nodes,
            nodes[r].children@[1] as int,
        )
    } else if 0 <= r < nodes.len() {
        nodes[r].pointers@
    } else {
        Seq::empty()
    }
}

/// Whether the nodes from `r` on hold a well-formed tree with root `r` over
/// the given boxes:
/// - a leaf lists at least one primitive, and only primitives that exist;
/// - an inner node has two children, each the root of a well-formed tree,
///   and both stand behind it in the array;
/// - the box of every node is the join of the boxes of the primitives under
///   it.
pub open spec fn tree_wf(nodes: Seq<Node>, boxes: Seq<Aabb>, r: int) -> bool
    decreases nodes.len() - r,
{
    &&& 0 <= r < nodes.len()
    &&& nodes[r].bound == join_all(boxes, subtree_ids(nodes, r))
    &&& if nodes[r].is_leaf() {
        &&& nodes[r].pointers@.len() > 0
        &&& forall|k: int|
            0 <= k < nodes[r].pointers@.len() ==> (#[trigger] nodes[r].pointers@[k]) < boxes.len()
    } else {
        &&& nodes[r].children@.len() == 2
        &&& nodes[r].pointers@.len() == 0
        &&& r < nodes[r].children@[0] < nodes.len()
        &&& r < nodes[r].children@[1] < nodes.len()
        &&& tree_wf(nodes, boxes, nodes[r].children@[0] as int)
        &&& tree_wf(nodes, boxes, nodes[r].children@[1] as int)
    }
}

/// Whether node `x` belongs to the tree under node `r`.
pub open spec fn reaches(nodes: Seq<Node>, r: int, x: int) -> bool
    decreases nodes.len() - r,
{
    r == x || (0 <= r < nodes.len() && nodes[r].children@.len() == 2 && r < nodes[r].children@[0]
        < nodes.len() && r < nodes[r].children@[1] < nodes.len() && (reaches(
        nodes,
        nodes[r].children@[0] as int,
        x,
    ) || reaches(nodes, nodes[r].children@[1] as int, x)))
}

/// A tree is not touched by changes to the nodes that stand before its root
/// nor by nodes that are added behind the array.
pub proof fn lemma_tree_frame(nodes: Seq<Node>, later: Seq<Node>, boxes: Seq<Aabb>, r: int)
    requires
        tree_wf(nodes, boxes, r),
        nodes.len() <= later.len(),
        forall|k: int| r <= k < nodes.len() ==> nodes[k] == later[k],
    ensures
        tree_wf(later, boxes, r),
        subtree_ids(later, r) == subtree_ids(nodes, r),
        forall|x: int| reaches(nodes, r, x) ==> reaches(later, r, x),
    decreases nodes.len() - r,
{
    if !nodes[r].is_leaf() {
        lemma_tree_frame(nodes, later, boxes, nodes[r].children@[0] as int);
        lemma_tree_frame(nodes, later, boxes, nodes[r].children@[1] as int);
    }
    assert forall|x: int| reaches(nodes, r, x) implies reaches(later, r, x) by {
        if r != x {
            assert(reaches(nodes, nodes[r].children@[0] as int, x) || reaches(
                nodes,
                nodes[r].children@[1] as int,
                x,
            ));
        }
    }
}

/// Every node of a well-formed tree is the root of a well-formed tree, and
/// stands at or behind the root.
pub proof fn lemma_reached_is_wf(nodes: Seq<Node>, boxes: Seq<Aabb>, r: int, x: int)
    requires
        tree_wf(nodes, boxes, r),
        reaches(nodes, r, x),
    ensures
        tree_wf(nodes, boxes, x),
        r <= x < nodes.len(),
    decreases nodes.len() - r,
{
    if r != x {
        let c0 = nodes[r].children@[0] as int;
        let c1 = nodes[r].children@[1] as int;
        if reaches(nodes, c0, x) {
            lemma_reached_is_wf(nodes, boxes, c0, x);
        } else {
            lemma_reached_is_wf(nodes, boxes, c1, x);
        }
    }
}

/// Every primitive under a well-formed tree exists.
pub proof fn lemma_subtree_ids_in_range(nodes: Seq<Node>, boxes: Seq<Aabb>, r: int)
    requires
        tree_wf(nodes, boxes, r),
    ensures
        subtree_ids(nodes, r).len() > 0,
        forall|k: int|
            0 <= k < subtree_ids(nodes, r).len() ==> (#[trigger] subtree_ids(nodes, r)[k])
                < boxes.len(),
    decreases nodes.len() - r,
{
    if !nodes[r].is_leaf() {
        lemma_subtree_ids_in_range(nodes, boxes, nodes[r].children@[0] as int);
        lemma_subtree_ids_in_range(nodes, boxes, nodes[r].children@[1] as int);
    }
}

/// Whether `lo` and `hi` are the lowest and the highest coordinate on the
/// axis among the centroids.
pub open spec fn is_coord_range(v: Seq<IndexedCentroid>, axis: int, lo: int, hi: int) -> bool {
    &&& forall|k: int| 0 <= k < v.len() ==> lo <= (#[trigger] v[k]).1.coord(axis)
    &&& forall|k: int| 0 <= k < v.len() ==> (#[trigger] v[k]).1.coord(axis) <= hi
    &&& exists|k: int| 0 <= k < v.len() && lo == (#[trigger] v[k]).1.coord(axis)
    &&& exists|k: int| 0 <= k < v.len() && hi == (#[trigger] v[k]).1.coord(axis)
}

/// Whether `lo` and `hi` hold, on every axis, the lowest and the highest
/// coordinate among the centroids.
pub open spec fn is_centroid_range(v: Seq<IndexedCentroid>, lo: Point3d, hi: Point3d) -> bool {
    &&& is_coord_range(v, 0, lo.coord(0), hi.coord(0))
    &&& is_coord_range(v, 1, lo.coord(1), hi.coord(1))
    &&& is_coord_range(v, 2, lo.coord(2), hi.coord(2))
}

/// Taking one more centroid into account moves the range by at most that
/// centroid.
proof fn lemma_coord_range_step(v: Seq<IndexedCentroid>, i: int, axis: int, lo: int, hi: int)
    requires
        0 < i < v.len(),
        is_coord_range(v.take(i), axis, lo, hi),
    ensures
        is_coord_range(
            v.take(i + 1),
            axis,
            crate::aabb::min2(lo, v[i].1.coord(axis)),
            crate::aabb::max2(hi, v[i].1.coord(axis)),
        ),
{
    let before = v.take(i);
    let after = v.take(i + 1);
    let c = v[i].1.coord(axis);
    let new_lo = crate::aabb::min2(lo, c);
    let new_hi = crate::aabb::max2(hi, c);
    assert(after[i] == v[i]);
    assert forall|k: int| 0 <= k < after.len() implies new_lo <= (#[trigger] after[k]).1.coord(
        axis,
    ) && after[k].1.coord(axis) <= new_hi by {
        if k < i {
            assert(before[k] == after[k]);
        }
    }
    let kl = choose|k: int| 0 <= k < before.len() && lo == (#[trigger] before[k]).1.coord(axis);
    let kh = choose|k: int| 0 <= k < before.len() && hi == (#[trigger] before[k]).1.coord(axis);
    assert(before[kl] == after[kl]);
    assert(before[kh] == after[kh]);
    if new_lo == lo {
        assert(new_lo == after[kl].1.coord(axis));
    } else {
        assert(new_lo == after[i].1.coord(axis));
    }
    if new_hi == hi {
        assert(new_hi == after[kh].1.coord(axis));
    } else {
        assert(new_hi == after[i].1.coord(axis));
    }
}

/// The centroids that lie below `mid` on the axis.
pub open spec fn below(v: Seq<IndexedCentroid>, axis: int, mid: int) -> Seq<IndexedCentroid> {
    v.filter(|e: IndexedCentroid| e.1.coord(axis) < mid)
}

/// The centroids that do not lie below `mid` on the axis.
pub open spec fn not_below(v: Seq<IndexedCentroid>, axis: int, mid: int) -> Seq<IndexedCentroid> {
    v.filter(|e: IndexedCentroid| !(e.1.coord(axis) < mid))
}

/// Splitting loses no centroid and makes none up: each is on one side, as
/// often as it was listed.
#[verifier::rlimit(40)]
pub proof fn lemma_split_keeps_ids(v: Seq<IndexedCentroid>, axis: int, mid: int)
    ensures
        ids_of(below(v, axis, mid)).to_multiset().add(
            ids_of(not_below(v, axis, mid)).to_multiset(),
        ) == ids_of(v).to_multiset(),
        below(v, axis, mid).len() + not_below(v, axis, mid).len() == v.len(),
        forall|k: int|
            0 <= k < below(v, axis, mid).len() ==> v.contains(#[trigger] below(v, axis, mid)[k]),
        forall|k: int|
            0 <= k < not_below(v, axis, mid).len() ==> v.contains(
                #[trigger] not_below(v, axis, mid)[k],
            ),
    decreases v.len(),
{
    broadcast use vstd::seq_lib::group_seq_properties;

    let low = |e: IndexedCentroid| e.1.coord(axis) < mid;
    let high = |e: IndexedCentroid| !(e.1.coord(axis) < mid);
    broadcast use vstd::seq_lib::group_filter_ensures;

    if v.len() == 0 {
        assert(ids_of(v) =~= Seq::<usize>::empty());
        assert(ids_of(below(v, axis, mid)) =~= Seq::<usize>::empty());
        assert(ids_of(not_below(v, axis, mid)) =~= Seq::<usize>::empty());
        assert(Multiset::<usize>::empty().add(Multiset::<usize>::empty()) =~= Multiset::<
            usize,
        >::empty());
    } else {
        let front = v.drop_last();
        let last = v.last();
        lemma_split_keeps_ids(front, axis, mid);
        assert(v =~= front.push(last));
        Seq::lemma_filter_push(front, last, low);
        Seq::lemma_filter_push(front, last, high);
        assert(ids_of(v) =~= ids_of(front).push(last.0));
        vstd::seq_lib::to_multiset_build(ids_of(front), last.0);
        if low(last) {
            assert(ids_of(below(v, axis, mid)) =~= ids_of(below(front, axis, mid)).push(last.0));
            vstd::seq_lib::to_multiset_build(ids_of(below(front, axis, mid)), last.0);
            assert(not_below(v, axis, mid) == not_below(front, axis, mid));
        } else {
            assert(ids_of(not_below(v, axis, mid)) =~= ids_of(not_below(front, axis, mid)).push(
                last.0,
            ));
            vstd::seq_lib::to_multiset_build(ids_of(not_below(front, axis, mid)), last.0);
            assert(below(v, axis, mid) == below(front, axis, mid));
        }
        assert(ids_of(below(v, axis, mid)).to_multiset().add(
            ids_of(not_below(v, axis, mid)).to_multiset(),
        ) =~= ids_of(v).to_multiset());
    }
}

/// The lowest and the highest coordinate of the centroids on every axis.
pub fn centroid_range(v: &[IndexedCentroid]) -> (range: (Point3d, Point3d))
    requires
        v@.len() > 0,
    ensures
        is_centroid_range(v@, range.0, range.1),
{
    let first = v[0].1;
    let mut lo = first;
    let mut hi = first;
    let mut i: usize = 1;
    proof {
        assert(v@.take(1)[0] == v@[0]);
    }
    while i < v.len()
        invariant
            1 <= i <= v@.len(),
            is_centroid_range(v@.take(i as int), lo, hi),
        decreases v@.len() - i,
    {
        let c = v[i].1;
        let ghost old_lo = lo;
        let ghost old_hi = hi;
        lo = Point3d::from_coords(
            crate::aabb::min_of_two(lo.x, c.x),
            crate::aabb::min_of_two(lo.y, c.y),
            crate::aabb::min_of_two(lo.z, c.z),
        );
        hi = Point3d::from_coords(
            crate::aabb::max_of_two(hi.x, c.x),
            crate::aabb::max_of_two(hi.y, c.y),
            crate::aabb::max_of_two(hi.z, c.z),
        );
        proof {
            lemma_coord_range_step(v@, i as int, 0, old_lo.coord(0), old_hi.coord(0));
            lemma_coord_range_step(v@, i as int, 1, old_lo.coord(1), old_hi.coord(1));
            lemma_coord_range_step(v@, i as int, 2, old_lo.coord(2), old_hi.coord(2));
        }
        i += 1;
    }
    proof {
        assert(v@.take(v@.len() as int) =~= v@);
    }
    (lo, hi)
}

/// The join of the boxes of the listed primitives.
pub fn bound_of(boxes: &Vec<Aabb>, v: &[IndexedCentroid]) -> (bound: Aabb)
    requires
        forall|k: int| 0 <= k < v@.len() ==> (#[trigger] v@[k]).0 < boxes@.len(),
    ensures
        bound == join_all(boxes@, ids_of(v@)),
{
    let mut bound = Aabb::new();
    let mut i: usize = 0;
    while i < v.len()
        invariant
            i <= v@.len(),
            forall|k: int| 0 <= k < v@.len() ==> (#[trigger] v@[k]).0 < boxes@.len(),
            bound == join_all(boxes@, ids_of(v@.take(i as int))),
        decreases v@.len() - i,
    {
        proof {
            let next = ids_of(v@.take(i as int + 1));
            assert(next.drop_last() =~= ids_of(v@.take(i as int)));
            assert(next.last() == v@[i as int].0);
        }
        bound = bound + boxes[v[i].0];
        i += 1;
    }
    proof {
        assert(v@.take(v@.len() as int) =~= v@);
    }
    bound
}

/// Splits the centroids into those below `mid` on the axis and the rest,
/// each side in the order of the list.
pub fn split_at(v: &[IndexedCentroid], axis: usize, mid: i32) -> (sides: (
    Vec<IndexedCentroid>,
    Vec<IndexedCentroid>,
))
    requires
        axis < AXES,
    ensures
        sides.0@ == below(v@, axis as int, mid as int),
        sides.1@ == not_below(v@, axis as int, mid as int),
{
    let mut left: Vec<IndexedCentroid> = Vec::new();
    let mut right: Vec<IndexedCentroid> = Vec::new();
    let mut i: usize = 0;
    proof {
        assert(v@.take(0) =~= Seq::<IndexedCentroid>::empty());
        broadcast use vstd::seq_lib::group_filter_ensures;

        assert(below(v@.take(0), axis as int, mid as int) =~= Seq::<IndexedCentroid>::empty());
        assert(not_below(v@.take(0), axis as int, mid as int) =~= Seq::<IndexedCentroid>::empty());
    }
    while i < v.len()
        invariant
            i <= v@.len(),
            axis < AXES,
            left@ == below(v@.take(i as int), axis as int, mid as int),
            right@ == not_below(v@.take(i as int), axis as int, mid as int),
        decreases v@.len() - i,
    {
        let e = v[i];
        proof {
            assert(v@.take(i as int + 1) =~= v@.take(i as int).push(e));
            Seq::lemma_filter_push(
                v@.take(i as int),
                e,
                |e: IndexedCentroid| e.1.coord(axis as int) < mid as int,
            );
            Seq::lemma_filter_push(
                v@.take(i as int),
                e,
                |e: IndexedCentroid| !(e.1.coord(axis as int) < mid as int),
            );
        }
        if e.1.get(axis) < mid {
            left.push(e);
        } else {
            right.push(e);
        }
        i += 1;
    }
    proof {
        assert(v@.take(v@.len() as int) =~= v@);
    }
    (left, right)
}

/// The axis with the widest spread: the first of those with the greatest.
pub open spec fn widest_of(spread_x: int, spread_y: int, spread_z: int) -> int {
    if spread_x >= spread_y && spread_x >= spread_z {
        0
    } else if spread_y >= spread_z {
        1
    } else {
        2
    }
}

/// The axis with the widest of three spreads.
pub fn pick_widest(spread_x: i32, spread_y: i32, spread_z: i32) -> (axis: usize)
    ensures
        axis == widest_of(spread_x as int, spread_y as int, spread_z as int),
        axis < AXES,
{
    if spread_x >= spread_y && spread_x >= spread_z {
        0
    } else if spread_y >= spread_z {
        1
    } else {
        2
    }
}

/// Whether `axis` is the axis on which the range from `lo` to `hi` is widest
/// by the widths that `spread` gives.
pub open spec fn is_widest<S: Fn(i32, i32) -> i32>(
    spread: S,
    lo: Point3d,
    hi: Point3d,
    axis: int,
) -> bool {
    exists|sx: i32, sy: i32, sz: i32|
        #![trigger call_ensures(spread, (lo.x, hi.x), sx), call_ensures(spread, (lo.y, hi.y), sy), call_ensures(spread, (lo.z, hi.z), sz)]
        {
            &&& call_ensures(spread, (lo.x, hi.x), sx)
            &&& call_ensures(spread, (lo.y, hi.y), sy)
            &&& call_ensures(spread, (lo.z, hi.z), sz)
            &&& axis == widest_of(sx as int, sy as int, sz as int)
        }
}

/// The axis on which the range of the centroids is widest, each width made
/// by `spread` from the lowest and the highest coordinate on that axis.
pub fn widest_axis<S: Fn(i32, i32) -> i32>(lo: &Point3d, hi: &Point3d, spread: &S) -> (axis: usize)
    requires
        forall|a: i32, b: i32| call_requires(spread, (a, b)),
    ensures
        axis < AXES,
        is_widest(*spread, *lo, *hi, axis as int),
{
    let sx = spread(lo.x, hi.x);
    let sy = spread(lo.y, hi.y);
    let sz = spread(lo.z, hi.z);
    pick_widest(sx, sy, sz)
}

/// Whether the node is a leaf that lists the primitives in their order.
pub open spec fn is_leaf_over(node: Node, v: Seq<IndexedCentroid>) -> bool {
    &&& node.children@.len() == 0
    &&& node.pointers@ == ids_of(v)
}

/// Whether the tree under node `r` is the one that is built over the listed
/// primitives, for some answers of `spread` and `midpoint`.
///
/// The axis is the one on which the range of the centroids is widest. The
/// node is a leaf over all the primitives if they are fewer than
/// `LEAF_THRESHOLD`, if the range has no width on the axis, or if all
/// centroids fall on one side of the midpoint of the range on the axis.
/// Else it is an inner node, its first child stands right behind it and is
/// built over the primitives whose centroids lie below the midpoint, its
/// second child is built over the others.
pub open spec fn is_built<S: Fn(i32, i32) -> i32, M: Fn(i32, i32) -> i32>(
    nodes: Seq<Node>,
    r: int,
    v: Seq<IndexedCentroid>,
    spread: S,
    midpoint: M,
) -> bool
    decreases v.len(),
{
    &&& 0 <= r < nodes.len()
    &&& exists|lo: Point3d, hi: Point3d, axis: int|
        #![trigger is_widest(spread, lo, hi, axis)]
        {
            &&& is_centroid_range(v, lo, hi)
            &&& is_widest(spread, lo, hi, axis)
            &&& 0 <= axis < 3
            &&& if v.len() < LEAF_THRESHOLD || lo.coord(axis) == hi.coord(axis) {
                is_leaf_over(nodes[r], v)
            } else {
                exists|mid: i32| #[trigger]
                    call_ensures(midpoint, (lo.coord(axis) as i32, hi.coord(axis) as i32), mid) && {
                        let first = below(v, axis, mid as int);
                        let second = not_below(v, axis, mid as int);
                        if first.len() == 0 || second.len() == 0 {
                            is_leaf_over(nodes[r], v)
                        } else {
                            proof {
                                lemma_split_keeps_ids(v, axis, mid as int);
                            }
                            &&& nodes[r].pointers@.len() == 0
                            &&& nodes[r].children@.len() == 2
                            &&& nodes[r].children@[0] == r + 1
                            &&& r < nodes[r].children@[1] < nodes.len()
                            &&& is_built(nodes, r + 1, first, spread, midpoint)
                            &&& is_built(nodes, nodes[r].children@[1] as int, second, spread, midpoint)
                        }
                    }
            }
        }
}

/// What is built is not touched by changes to the nodes that stand before
/// its root nor by nodes that are added behind the array.
#[verifier::rlimit(40)]
pub proof fn lemma_built_frame<S: Fn(i32, i32) -> i32, M: Fn(i32, i32) -> i32>(
    nodes: Seq<Node>,
    later: Seq<Node>,
    r: int,
    v: Seq<IndexedCentroid>,
    spread: S,
    midpoint: M,
)
    requires
        is_built(nodes, r, v, spread, midpoint),
        nodes.len() <= later.len(),
        forall|k: int| r <= k < nodes.len() ==> nodes[k] == later[k],
    ensures
        is_built(later, r, v, spread, midpoint),
    decreases v.len(),
{
    let (lo, hi, axis) = choose|lo: Point3d, hi: Point3d, axis: int|
        #![trigger is_widest(spread, lo, hi, axis)]
        {
            &&& is_centroid_range(v, lo, hi)
            &&& is_widest(spread, lo, hi, axis)
            &&& 0 <= axis < 3
            &&& if v.len() < LEAF_THRESHOLD || lo.coord(axis) == hi.coord(axis) {
                is_leaf_over(nodes[r], v)
            } else {
                exists|mid: i32| #[trigger]
                    call_ensures(midpoint, (lo.coord(axis) as i32, hi.coord(axis) as i32), mid) && {
                        let first = below(v, axis, mid as int);
                        let second = not_below(v, axis, mid as int);
                        if first.len() == 0 || second.len() == 0 {
                            is_leaf_over(nodes[r], v)
                        } else {
                            &&& nodes[r].pointers@.len() == 0
                            &&& nodes[r].children@.len() == 2
                            &&& nodes[r].children@[0] == r + 1
                            &&& r < nodes[r].children@[1] < nodes.len()
                            &&& is_built(nodes, r + 1, first, spread, midpoint)
                            &&& is_built(nodes, nodes[r].children@[1] as int, second, spread, midpoint)
                        }
                    }
            }
        };
    if !(v.len() < LEAF_THRESHOLD || lo.coord(axis) == hi.coord(axis)) {
        let mid = choose|mid: i32| #[trigger]
            call_ensures(midpoint, (lo.coord(axis) as i32, hi.coord(axis) as i32), mid) && {
                let first = below(v, axis, mid as int);
                let second = not_below(v, axis, mid as int);
                if first.len() == 0 || second.len() == 0 {
                    is_leaf_over(nodes[r], v)
                } else {
                    &&& nodes[r].pointers@.len() == 0
                    &&& nodes[r].children@.len() == 2
                    &&& nodes[r].children@[0] == r + 1
                    &&& r < nodes[r].children@[1] < nodes.len()
                    &&& is_built(nodes, r + 1, first, spread, midpoint)
                    &&& is_built(nodes, nodes[r].children@[1] as int, second, spread, midpoint)
                }
            };
        let first = below(v, axis, mid as int);
        let second = not_below(v, axis, mid as int);
        if !(first.len() == 0 || second.len() == 0) {
            lemma_split_keeps_ids(v, axis, mid as int);
            lemma_built_frame(nodes, later, r + 1, first, spread, midpoint);
            lemma_built_frame(
                nodes,
                later,
                nodes[r].children@[1] as int,
                second,
                spread,
                midpoint,
            );
        }
        assert(call_ensures(midpoint, (lo.coord(axis) as i32, hi.coord(axis) as i32), mid));
    }
    assert(is_widest(spread, lo, hi, axis));
}

/// A leaf with the given box over the listed primitives.
pub fn leaf_of(bound: Aabb, v: &[IndexedCentroid]) -> (node: Node)
    ensures
        node.bound == bound,
        node.children@.len() == 0,
        node.pointers@ == ids_of(v@),
{
    let mut node = Node::new(bound);
    let mut i: usize = 0;
    while i < v.len()
        invariant
            i <= v@.len(),
            node.bound == bound,
            node.children@.len() == 0,
            node.pointers@ == ids_of(v@.take(i as int)),
        decreases v@.len() - i,
    {
        proof {
            assert(ids_of(v@.take(i as int + 1)) =~= ids_of(v@.take(i as int)).push(v@[i as int].0));
        }
        node.pointers.push(v[i].0);
        i += 1;
    }
    proof {
        assert(v@.take(v@.len() as int) =~= v@);
    }
    node
}

/// Builds the tree over the listed primitives behind the nodes that are
/// there, and returns the index of its root.
///
/// The set becomes a leaf if it has fewer than `LEAF_THRESHOLD` members, if
/// all its centroids have the same coordinate on the axis of the widest
/// spread, or if all of them fall on one side of the value that `midpoint`
/// makes from the lowest and the highest coordinate on that axis. Otherwise
/// the centroids below that value go to the first child and the others to
/// the second.
#[verifier::rlimit(40)]
pub fn build_bvh<S, M>(
    nodes: &mut Vec<Node>,
    boxes: &Vec<Aabb>,
    v: &[IndexedCentroid],
    spread: &S,
    midpoint: &M,
) -> (idx: usize) where S: Fn(i32, i32) -> i32, M: Fn(i32, i32) -> i32
    requires
        v@.len() > 0,
        forall|k: int| 0 <= k < v@.len() ==> (#[trigger] v@[k]).0 < boxes@.len(),
        forall|a: i32, b: i32| call_requires(spread, (a, b)),
        forall|a: i32, b: i32| call_requires(midpoint, (a, b)),
    ensures
        idx == old(nodes)@.len(),
        final(nodes)@.len() > idx,
        forall|k: int| 0 <= k < idx ==> final(nodes)@[k] == old(nodes)@[k],
        tree_wf(final(nodes)@, boxes@, idx as int),
        subtree_ids(final(nodes)@, idx as int).to_multiset() == ids_of(v@).to_multiset(),
        final(nodes)@[idx as int].bound == join_all(boxes@, ids_of(v@)),
        forall|x: int| idx <= x < final(nodes)@.len() ==> reaches(final(nodes)@, idx as int, x),
        is_built(final(nodes)@, idx as int, v@, *spread, *midpoint),
    decreases v@.len(),
{
    let bound = bound_of(boxes, v);
    let idx = nodes.len();
    let (lo, hi) = centroid_range(v);
    let axis = widest_axis(&lo, &hi, spread);
    let mut split = !(v.len() < LEAF_THRESHOLD || lo.get(axis) == hi.get(axis));
    let mut left: Vec<IndexedCentroid> = Vec::new();
    let mut right: Vec<IndexedCentroid> = Vec::new();
    let ghost mut middle: i32 = 0;
    if split {
        let mid = midpoint(lo.get(axis), hi.get(axis));
        proof {
            middle = mid;
        }
        let sides = split_at(v, axis, mid);
        left = sides.0;
        right = sides.1;
        proof {
            lemma_split_keeps_ids(v@, axis as int, mid as int);
        }
        if left.len() == 0 || right.len() == 0 {
            split = false;
        }
    }
    if !split {
        let node = leaf_of(bound, v);
        nodes.push(node);
        proof {
            assert(ids_of(v@).len() == v@.len());
            assert forall|k: int| 0 <= k < ids_of(v@).len() implies (#[trigger] ids_of(v@)[k])
                < boxes@.len() by {
                assert(ids_of(v@)[k] == v@[k].0);
            }
            assert(is_widest(*spread, lo, hi, axis as int));
            if !(v@.len() < LEAF_THRESHOLD || lo.coord(axis as int) == hi.coord(axis as int)) {
                assert(call_ensures(
                    *midpoint,
                    (lo.coord(axis as int) as i32, hi.coord(axis as int) as i32),
                    middle,
                ));
            }
        }
        idx
    } else {
        nodes.push(Node::new(bound));
        proof {
            assert forall|k: int| 0 <= k < left@.len() implies (#[trigger] left@[k]).0
                < boxes@.len() by {
                assert(v@.contains(left@[k]));
            }
            assert forall|k: int| 0 <= k < right@.len() implies (#[trigger] right@[k]).0
                < boxes@.len() by {
                assert(v@.contains(right@[k]));
            }
        }
        let first = build_bvh(nodes, boxes, left.as_slice(), spread, midpoint);
        let ghost after_first = nodes@;
        let second = build_bvh(nodes, boxes, right.as_slice(), spread, midpoint);
        let ghost after_second = nodes@;
        let mut node = Node::new(bound);
        node.children.push(first);
        node.children.push(second);
        nodes.set(idx, node);
        proof {
            let done = nodes@;
            lemma_tree_frame(after_first, after_second, boxes@, first as int);
            lemma_tree_frame(after_second, done, boxes@, first as int);
            lemma_tree_frame(after_second, done, boxes@, second as int);
            let a = subtree_ids(done, first as int);
            let b = subtree_ids(done, second as int);
            assert(subtree_ids(done, idx as int) == a + b);
            vstd::seq_lib::lemma_multiset_commutative(a, b);
            assert((a + b).to_multiset() =~= ids_of(v@).to_multiset());
            assert forall|id: usize| (a + b).contains(id) <==> ids_of(v@).contains(id) by {
                vstd::seq_lib::to_multiset_contains(a + b, id);
                vstd::seq_lib::to_multiset_contains(ids_of(v@), id);
            }
            lemma_join_all_same_members(boxes@, a + b, ids_of(v@));
            lemma_built_frame(after_first, after_second, first as int, left@, *spread, *midpoint);
            lemma_built_frame(after_second, done, first as int, left@, *spread, *midpoint);
            lemma_built_frame(after_second, done, second as int, right@, *spread, *midpoint);
            assert(is_widest(*spread, lo, hi, axis as int));
            assert(call_ensures(
                *midpoint,
                (lo.coord(axis as int) as i32, hi.coord(axis as int) as i32),
                middle,
            ));
            assert forall|x: int| idx <= x < done.len() implies reaches(done, idx as int, x) by {
                if idx < x < after_first.len() {
                    assert(reaches(after_first, first as int, x));
                    assert(reaches(after_second, first as int, x));
                    assert(reaches(done, first as int, x));
                } else if x >= after_first.len() {
                    assert(reaches(after_second, second as int, x));
                    assert(reaches(done, second as int, x));
                }
            }
        }
        idx
    }
}

/// The join over two lists, one after the other, is the join of their joins.
pub proof fn lemma_join_all_concat(boxes: Seq<Aabb>, a: Seq<usize>, b: Seq<usize>)
    ensures
        join_all(boxes, a + b) == join_all(boxes, a).join(join_all(boxes, b)),
    decreases b.len(),
{
    if b.len() == 0 {
        assert(a + b =~= a);
        lemma_join_all_least(boxes, a);
    } else {
        lemma_join_all_concat(boxes, a, b.drop_last());
        assert((a + b).drop_last() =~= a + b.drop_last());
        assert((a + b).last() == b.last());
    }
}

/// The box of every node of a well-formed tree encloses what stands under
/// it: the box of an inner node is the join of the boxes of its two
/// children, the box of a leaf is the join of the boxes of its primitives
/// and encloses each of them.
pub proof fn lemma_bounds_enclose(nodes: Seq<Node>, boxes: Seq<Aabb>, r: int, x: int)
    requires
        tree_wf(nodes, boxes, r),
        reaches(nodes, r, x),
    ensures
        0 <= x < nodes.len(),
        !nodes[x].is_leaf() ==> {
            let first = nodes[nodes[x].children@[0] as int].bound;
            let second = nodes[nodes[x].children@[1] as int].bound;
            &&& nodes[x].bound == first.join(second)
            &&& nodes[x].bound.encloses(first)
            &&& nodes[x].bound.encloses(second)
        },
        nodes[x].is_leaf() ==> {
            &&& nodes[x].bound == join_all(boxes, nodes[x].pointers@)
            &&& forall|k: int|
                0 <= k < nodes[x].pointers@.len() ==> nodes[x].bound.encloses(
                    #[trigger] boxes[nodes[x].pointers@[k] as int],
                )
        },
{
    lemma_reached_is_wf(nodes, boxes, r, x);
    if nodes[x].is_leaf() {
        lemma_join_all_least(boxes, nodes[x].pointers@);
    } else {
        let c0 = nodes[x].children@[0] as int;
        let c1 = nodes[x].children@[1] as int;
        assert(tree_wf(nodes, boxes, c0));
        assert(tree_wf(nodes, boxes, c1));
        assert(subtree_ids(nodes, x) == subtree_ids(nodes, c0) + subtree_ids(nodes, c1));
        lemma_join_all_concat(boxes, subtree_ids(nodes, c0), subtree_ids(nodes, c1));
    }
}

/// A primitive under a tree stands in a leaf of the tree.
pub proof fn lemma_id_has_leaf(nodes: Seq<Node>, boxes: Seq<Aabb>, r: int, id: usize) -> (x: int)
    requires
        tree_wf(nodes, boxes, r),
        subtree_ids(nodes, r).contains(id),
    ensures
        reaches(nodes, r, x),
        0 <= x < nodes.len(),
        nodes[x].is_leaf(),
        nodes[x].pointers@.contains(id),
    decreases nodes.len() - r,
{
    if nodes[r].is_leaf() {
        r
    } else {
        let c0 = nodes[r].children@[0] as int;
        let c1 = nodes[r].children@[1] as int;
        let a = subtree_ids(nodes, c0);
        let b = subtree_ids(nodes, c1);
        let k = choose|k: int| 0 <= k < (a + b).len() && (a + b)[k] == id;
        if k < a.len() {
            assert(a[k] == id);
            lemma_id_has_leaf(nodes, boxes, c0, id)
        } else {
            assert(b[k - a.len()] == id);
            lemma_id_has_leaf(nodes, boxes, c1, id)
        }
    }
}

/// A primitive is counted under a tree at least as often as a leaf of the
/// tree lists it.
pub proof fn lemma_leaf_counts(nodes: Seq<Node>, boxes: Seq<Aabb>, r: int, x: int, id: usize)
    requires
        tree_wf(nodes, boxes, r),
        reaches(nodes, r, x),
        0 <= x < nodes.len(),
        nodes[x].is_leaf(),
    ensures
        nodes[x].pointers@.to_multiset().count(id) <= subtree_ids(nodes, r).to_multiset().count(
            id,
        ),
    decreases nodes.len() - r,
{
    if r != x {
        let c0 = nodes[r].children@[0] as int;
        let c1 = nodes[r].children@[1] as int;
        vstd::seq_lib::lemma_multiset_commutative(subtree_ids(nodes, c0), subtree_ids(nodes, c1));
        if reaches(nodes, c0, x) {
            lemma_leaf_counts(nodes, boxes, c0, x, id);
        } else {
            lemma_leaf_counts(nodes, boxes, c1, x, id);
        }
    }
}

/// A primitive that two leaves of a tree list is counted at least twice
/// under the tree.
pub proof fn lemma_two_leaves_count(
    nodes: Seq<Node>,
    boxes: Seq<Aabb>,
    r: int,
    x: int,
    y: int,
    id: usize,
)
    requires
        tree_wf(nodes, boxes, r),
        reaches(nodes, r, x),
        reaches(nodes, r, y),
        x != y,
        0 <= x < nodes.len(),
        0 <= y < nodes.len(),
        nodes[x].is_leaf(),
        nodes[y].is_leaf(),
        nodes[x].pointers@.contains(id),
        nodes[y].pointers@.contains(id),
    ensures
        subtree_ids(nodes, r).to_multiset().count(id) >= 2,
    decreases nodes.len() - r,
{
    let c0 = nodes[r].children@[0] as int;
    let c1 = nodes[r].children@[1] as int;
    vstd::seq_lib::lemma_multiset_commutative(subtree_ids(nodes, c0), subtree_ids(nodes, c1));
    vstd::seq_lib::to_multiset_contains(nodes[x].pointers@, id);
    vstd::seq_lib::to_multiset_contains(nodes[y].pointers@, id);
    let x_first = reaches(nodes, c0, x);
    let y_first = reaches(nodes, c0, y);
    if x_first && y_first {
        lemma_two_leaves_count(nodes, boxes, c0, x, y, id);
    } else if !x_first && !y_first {
        lemma_two_leaves_count(nodes, boxes, c1, x, y, id);
    } else {
        lemma_leaf_counts(nodes, boxes, if x_first { c0 } else { c1 }, x, id);
        lemma_leaf_counts(nodes, boxes, if y_first { c0 } else { c1 }, y, id);
    }
}

} // verus!
