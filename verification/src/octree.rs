//! An octree over the centroids of a scene's boxes: the primitives are
//! sorted and halved along x, each half along y, each quarter along z, and
//! each of the eight parts becomes a child, until a part is small enough for
//! a leaf.

use crate::aabb::{Aabb, Point3d, AXES};
use crate::bvh::join_all;
use vstd::prelude::*;

verus! {

/// The number of children of an inner node, and of items of a leaf.
pub const OCTREE_MAX_NUM_CHILDREN: usize = 8;

/// A primitive's id and the centroid of its box.
#[derive(Copy, Clone, Debug, PartialEq, Eq)]
pub struct OctreeItem {
    pub idx: usize,
    pub centroid: Point3d,
}

/// The ids of the items, in their order.
pub open spec fn idxs_of(elems: Seq<OctreeItem>) -> Seq<usize> {
    elems.map_values(|e: OctreeItem| e.idx)
}

/// Whether the items stand in the order of their centroids on the axis.
pub open spec fn is_sorted(elems: Seq<OctreeItem>, axis: int) -> bool {
    forall|i: int, j: int|
        0 <= i <= j < elems.len() ==> (#[trigger] elems[i]).centroid.coord(axis) <= (
        #[trigger] elems[j]).centroid.coord(axis)
}

/// The sorted list with one more item: the item stands behind all items
/// that do not lie above it on the axis.
pub open spec fn inserted(sorted: Seq<OctreeItem>, e: OctreeItem, axis: int) -> Seq<OctreeItem>
    decreases sorted.len(),
{
    if sorted.len() == 0 {
        seq![e]
    } else if sorted.last().centroid.coord(axis) <= e.centroid.coord(axis) {
        sorted.push(e)
    } else {
        inserted(sorted.drop_last(), e, axis).push(sorted.last())
    }
}

/// The items in the order of their centroids on the axis, items with the
/// same coordinate in the order in which they were listed.
pub open spec fn stable_sorted(elems: Seq<OctreeItem>, axis: int) -> Seq<OctreeItem>
    decreases elems.len(),
{
    if elems.len() == 0 {
        Seq::empty()
    } else {
        inserted(stable_sorted(elems.drop_last(), axis), elems.last(), axis)
    }
}

/// Inserting keeps a sorted list sorted and adds the one item to it.
#[verifier::rlimit(40)]
pub proof fn lemma_inserted(sorted: Seq<OctreeItem>, e: OctreeItem, axis: int)
    requires
        is_sorted(sorted, axis),
    ensures
        is_sorted(inserted(sorted, e, axis), axis),
        inserted(sorted, e, axis).len() == sorted.len() + 1,
        inserted(sorted, e, axis).to_multiset() == sorted.to_multiset().insert(e),
    decreases sorted.len(),
{
    broadcast use vstd::multiset::group_multiset_axioms;

    let after = inserted(sorted, e, axis);
    if sorted.len() == 0 {
        assert(sorted =~= Seq::<OctreeItem>::empty());
        vstd::seq_lib::to_multiset_build(sorted, e);
        assert(seq![e] =~= sorted.push(e));
    } else if sorted.last().centroid.coord(axis) <= e.centroid.coord(axis) {
        vstd::seq_lib::to_multiset_build(sorted, e);
        assert forall|i: int, j: int| 0 <= i <= j < after.len() implies (
        #[trigger] after[i]).centroid.coord(axis) <= (#[trigger] after[j]).centroid.coord(axis) by {
            if j < sorted.len() {
                assert(after[i] == sorted[i] && after[j] == sorted[j]);
            } else if i < sorted.len() {
                assert(after[i] == sorted[i]);
                assert(sorted[i].centroid.coord(axis) <= sorted[sorted.len() - 1].centroid.coord(
                    axis,
                ));
            }
        }
    } else {
        let front = sorted.drop_last();
        let last = sorted.last();
        assert forall|i: int, j: int| 0 <= i <= j < front.len() implies (
        #[trigger] front[i]).centroid.coord(axis) <= (#[trigger] front[j]).centroid.coord(axis) by {
            assert(front[i] == sorted[i] && front[j] == sorted[j]);
        }
        lemma_inserted(front, e, axis);
        let mid = inserted(front, e, axis);
        vstd::seq_lib::to_multiset_build(mid, last);
        vstd::seq_lib::to_multiset_build(front, last);
        assert(sorted =~= front.push(last));
        assert(after.to_multiset() =~= sorted.to_multiset().insert(e));
        // every item of `mid` is an item of `front` or is `e`: none lies
        // above `last`
        assert forall|i: int| 0 <= i < mid.len() implies (#[trigger] mid[i]).centroid.coord(axis)
            <= last.centroid.coord(axis) by {
            vstd::seq_lib::to_multiset_contains(mid, mid[i]);
            vstd::seq_lib::to_multiset_contains(front, mid[i]);
            assert(mid.contains(mid[i]));
            if mid[i] != e {
                assert(front.contains(mid[i]));
                let k = choose|k: int| 0 <= k < front.len() && front[k] == mid[i];
                assert(front[k] == sorted[k]);
                assert(sorted[k].centroid.coord(axis) <= sorted[sorted.len() - 1].centroid.coord(
                    axis,
                ));
            }
        }
        assert forall|i: int, j: int| 0 <= i <= j < after.len() implies (
        #[trigger] after[i]).centroid.coord(axis) <= (#[trigger] after[j]).centroid.coord(axis) by {
            if j < mid.len() {
                assert(after[i] == mid[i] && after[j] == mid[j]);
            } else if i < mid.len() {
                assert(after[i] == mid[i]);
            }
        }
    }
}

/// Sorting gives the same items, each as often as it was listed, in the
/// order of their centroids on the axis.
pub proof fn lemma_stable_sorted(elems: Seq<OctreeItem>, axis: int)
    ensures
        is_sorted(stable_sorted(elems, axis), axis),
        stable_sorted(elems, axis).len() == elems.len(),
        stable_sorted(elems, axis).to_multiset() == elems.to_multiset(),
    decreases elems.len(),
{
    broadcast use vstd::multiset::group_multiset_axioms;

    if elems.len() == 0 {
        assert(elems =~= Seq::<OctreeItem>::empty());
    } else {
        let front = elems.drop_last();
        lemma_stable_sorted(front, axis);
        lemma_inserted(stable_sorted(front, axis), elems.last(), axis);
        vstd::seq_lib::to_multiset_build(front, elems.last());
        assert(elems =~= front.push(elems.last()));
    }
}

/// Calls `<[T]>::sort_by_key` of std with the coordinate of the centroid on
/// the axis as the key. Claimed, as std documents it: the items come to
/// stand in the order of their keys, and items with the same key keep their
/// order.
#[verifier::external_body]
fn sort_by_axis(elems: &mut Vec<OctreeItem>, axis: usize)
    requires
        axis < AXES,
    ensures
        final(elems)@ == stable_sorted(old(elems)@, axis as int),
{
    elems.sort_by_key(|e| e.centroid.get(axis));
}

/// The first half of a list: its first `len / 2` items.
pub open spec fn lower_half(elems: Seq<OctreeItem>) -> Seq<OctreeItem> {
    elems.take((elems.len() / 2) as int)
}

/// The second half of a list: what follows its first `len / 2` items.
pub open spec fn upper_half(elems: Seq<OctreeItem>) -> Seq<OctreeItem> {
    elems.skip((elems.len() / 2) as int)
}

/// The items sorted along the axis and cut in the middle.
pub fn sort_and_split(elems: Vec<OctreeItem>, axis: usize) -> (halves: (
    Vec<OctreeItem>,
    Vec<OctreeItem>,
))
    requires
        axis < AXES,
    ensures
        halves.0@ == lower_half(stable_sorted(elems@, axis as int)),
        halves.1@ == upper_half(stable_sorted(elems@, axis as int)),
{
    let mut sorted = elems;
    sort_by_axis(&mut sorted, axis);
    let middle = sorted.len() / 2;
    let mut below: Vec<OctreeItem> = Vec::new();
    let mut above: Vec<OctreeItem> = Vec::new();
    let mut i: usize = 0;
    while i < sorted.len()
        invariant
            i <= sorted@.len(),
            middle == sorted@.len() / 2,
            below@ == sorted@.take(if i < middle {
                i as int
            } else {
                middle as int
            }),
            above@ == sorted@.subrange(middle as int, if i < middle {
                middle as int
            } else {
                i as int
            }),
        decreases sorted@.len() - i,
    {
        if i < middle {
            below.push(sorted[i]);
            proof {
                assert(below@ =~= sorted@.take(i as int + 1));
                assert(above@ =~= sorted@.subrange(middle as int, middle as int));
            }
        } else {
            above.push(sorted[i]);
            proof {
                assert(above@ =~= sorted@.subrange(middle as int, i as int + 1));
            }
        }
        i += 1;
    }
    proof {
        assert(above@ =~= sorted@.skip(middle as int));
    }
    (below, above)
}

/// The eight parts of a list of items: the halves along x, of each the
/// halves along y, of each of those the halves along z. The lower half
/// comes first at every cut.
pub open spec fn octants(elems: Seq<OctreeItem>) -> Seq<Seq<OctreeItem>> {
    let along_x = stable_sorted(elems, 0);
    let left = stable_sorted(lower_half(along_x), 1);
    let right = stable_sorted(upper_half(along_x), 1);
    let left_bot = stable_sorted(lower_half(left), 2);
    let left_top = stable_sorted(upper_half(left), 2);
    let right_bot = stable_sorted(lower_half(right), 2);
    let right_top = stable_sorted(upper_half(right), 2);
    seq![
        lower_half(left_bot),
        upper_half(left_bot),
        lower_half(left_top),
        upper_half(left_top),
        lower_half(right_bot),
        upper_half(right_bot),
        lower_half(right_top),
        upper_half(right_top),
    ]
}

/// The lists one after the other.
pub open spec fn flat(parts: Seq<Seq<OctreeItem>>) -> Seq<OctreeItem>
    decreases parts.len(),
{
    if parts.len() == 0 {
        Seq::empty()
    } else {
        flat(parts.drop_last()) + parts.last()
    }
}

/// Every item of a part is an item of the lists one after the other.
pub proof fn lemma_flat_contains(parts: Seq<Seq<OctreeItem>>, k: int, i: int)
    requires
        0 <= k < parts.len(),
        0 <= i < parts[k].len(),
    ensures
        flat(parts).contains(parts[k][i]),
    decreases parts.len(),
{
    let front = flat(parts.drop_last());
    if k == parts.len() - 1 {
        assert((front + parts.last())[front.len() + i] == parts[k][i]);
    } else {
        lemma_flat_contains(parts.drop_last(), k, i);
        let m = choose|m: int| 0 <= m < front.len() && front[m] == parts[k][i];
        assert((front + parts.last())[m] == parts[k][i]);
    }
}

/// Lists with the same items name the same primitives.
pub proof fn lemma_same_items_same_idxs(a: Seq<OctreeItem>, b: Seq<OctreeItem>)
    requires
        a.to_multiset() == b.to_multiset(),
    ensures
        forall|id: usize| idxs_of(a).contains(id) <==> idxs_of(b).contains(id),
{
    assert forall|id: usize| idxs_of(a).contains(id) implies idxs_of(b).contains(id) by {
        let i = choose|i: int| 0 <= i < idxs_of(a).len() && idxs_of(a)[i] == id;
        vstd::seq_lib::to_multiset_contains(a, a[i]);
        vstd::seq_lib::to_multiset_contains(b, a[i]);
        assert(a.contains(a[i]));
        let j = choose|j: int| 0 <= j < b.len() && b[j] == a[i];
        assert(idxs_of(b)[j] == id);
    }
    assert forall|id: usize| idxs_of(b).contains(id) implies idxs_of(a).contains(id) by {
        let i = choose|i: int| 0 <= i < idxs_of(b).len() && idxs_of(b)[i] == id;
        vstd::seq_lib::to_multiset_contains(b, b[i]);
        vstd::seq_lib::to_multiset_contains(a, b[i]);
        assert(b.contains(b[i]));
        let j = choose|j: int| 0 <= j < a.len() && a[j] == b[i];
        assert(idxs_of(a)[j] == id);
    }
}

/// The two halves of a list hold its items, each as often as the list, and
/// neither is longer than the upper half, which holds half of them rounded
/// up.
pub proof fn lemma_halves(elems: Seq<OctreeItem>)
    ensures
        lower_half(elems) + upper_half(elems) == elems,
        lower_half(elems).to_multiset().add(upper_half(elems).to_multiset())
            == elems.to_multiset(),
        lower_half(elems).len() == elems.len() / 2,
        upper_half(elems).len() == elems.len() - elems.len() / 2,
{
    assert(lower_half(elems) + upper_half(elems) =~= elems);
    vstd::seq_lib::lemma_multiset_commutative(lower_half(elems), upper_half(elems));
}

/// Lists with the same items, one after the other, have the same items.
pub proof fn lemma_concat_same_items(
    a: Seq<OctreeItem>,
    b: Seq<OctreeItem>,
    c: Seq<OctreeItem>,
    d: Seq<OctreeItem>,
)
    requires
        a.to_multiset() == c.to_multiset(),
        b.to_multiset() == d.to_multiset(),
    ensures
        (a + b).to_multiset() == (c + d).to_multiset(),
{
    vstd::seq_lib::lemma_multiset_commutative(a, b);
    vstd::seq_lib::lemma_multiset_commutative(c, d);
}

/// The two halves of a list, each sorted, hold the items of the list.
pub proof fn lemma_sorted_halves(elems: Seq<OctreeItem>, axis: int)
    ensures
        (stable_sorted(lower_half(elems), axis) + stable_sorted(
            upper_half(elems),
            axis,
        )).to_multiset() == elems.to_multiset(),
        stable_sorted(lower_half(elems), axis).len() == elems.len() / 2,
        stable_sorted(upper_half(elems), axis).len() == elems.len() - elems.len() / 2,
{
    lemma_halves(elems);
    lemma_stable_sorted(lower_half(elems), axis);
    lemma_stable_sorted(upper_half(elems), axis);
    lemma_concat_same_items(
        stable_sorted(lower_half(elems), axis),
        stable_sorted(upper_half(elems), axis),
        lower_half(elems),
        upper_half(elems),
    );
}

/// One more list behind the lists.
pub proof fn lemma_flat_push(parts: Seq<Seq<OctreeItem>>, last: Seq<OctreeItem>)
    ensures
        flat(parts.push(last)) == flat(parts) + last,
{
    assert(parts.push(last).drop_last() =~= parts);
}

/// The eight parts one after the other are the four quarters one after the
/// other, each sorted along z.
#[verifier::rlimit(40)]
proof fn lemma_flat_octants(elems: Seq<OctreeItem>)
    ensures
        octants(elems).len() == 8,
        ({
            let along_x = stable_sorted(elems, 0);
            let left = stable_sorted(lower_half(along_x), 1);
            let right = stable_sorted(upper_half(along_x), 1);
            flat(octants(elems)) == (stable_sorted(lower_half(left), 2) + stable_sorted(
                upper_half(left),
                2,
            )) + (stable_sorted(lower_half(right), 2) + stable_sorted(upper_half(right), 2))
        }),
{
    let parts = octants(elems);
    let none = Seq::<Seq<OctreeItem>>::empty();
    let p1 = none.push(parts[0]);
    let p2 = p1.push(parts[1]);
    let p3 = p2.push(parts[2]);
    let p4 = p3.push(parts[3]);
    let p5 = p4.push(parts[4]);
    let p6 = p5.push(parts[5]);
    let p7 = p6.push(parts[6]);
    let p8 = p7.push(parts[7]);
    assert(p8 =~= parts);
    lemma_flat_push(none, parts[0]);
    lemma_flat_push(p1, parts[1]);
    lemma_flat_push(p2, parts[2]);
    lemma_flat_push(p3, parts[3]);
    lemma_flat_push(p4, parts[4]);
    lemma_flat_push(p5, parts[5]);
    lemma_flat_push(p6, parts[6]);
    lemma_flat_push(p7, parts[7]);
    assert(flat(none) =~= Seq::<OctreeItem>::empty());
    let along_x = stable_sorted(elems, 0);
    let left = stable_sorted(lower_half(along_x), 1);
    let right = stable_sorted(upper_half(along_x), 1);
    lemma_halves(stable_sorted(lower_half(left), 2));
    lemma_halves(stable_sorted(upper_half(left), 2));
    lemma_halves(stable_sorted(lower_half(right), 2));
    lemma_halves(stable_sorted(upper_half(right), 2));
    assert(flat(p8) =~= (stable_sorted(lower_half(left), 2) + stable_sorted(upper_half(left), 2))
        + (stable_sorted(lower_half(right), 2) + stable_sorted(upper_half(right), 2)));
}

/// The eight parts hold the items of the list, each as often as the list.
proof fn lemma_octants_items(elems: Seq<OctreeItem>)
    ensures
        flat(octants(elems)).to_multiset() == elems.to_multiset(),
{
    let along_x = stable_sorted(elems, 0);
    let left = stable_sorted(lower_half(along_x), 1);
    let right = stable_sorted(upper_half(along_x), 1);
    lemma_flat_octants(elems);
    lemma_stable_sorted(elems, 0);
    lemma_sorted_halves(along_x, 1);
    lemma_sorted_halves(left, 2);
    lemma_sorted_halves(right, 2);
    let left_parts = stable_sorted(lower_half(left), 2) + stable_sorted(upper_half(left), 2);
    let right_parts = stable_sorted(lower_half(right), 2) + stable_sorted(upper_half(right), 2);
    lemma_concat_same_items(left_parts, right_parts, left, right);
}

/// Each of the eight parts of a list of two or more items is shorter than
/// the list.
#[verifier::rlimit(40)]
proof fn lemma_octants_shorter(elems: Seq<OctreeItem>, k: int)
    requires
        elems.len() >= 2,
        0 <= k < 8,
    ensures
        octants(elems)[k].len() < elems.len(),
{
    let along_x = stable_sorted(elems, 0);
    let left = stable_sorted(lower_half(along_x), 1);
    let right = stable_sorted(upper_half(along_x), 1);
    lemma_stable_sorted(elems, 0);
    lemma_sorted_halves(along_x, 1);
    lemma_sorted_halves(left, 2);
    lemma_sorted_halves(right, 2);
    lemma_halves(stable_sorted(lower_half(left), 2));
    lemma_halves(stable_sorted(upper_half(left), 2));
    lemma_halves(stable_sorted(lower_half(right), 2));
    lemma_halves(stable_sorted(upper_half(right), 2));
}

/// The eight parts hold the items of the list, each as often as the list,
/// and each part of a list of two or more items is shorter than the list.
pub proof fn lemma_octants(elems: Seq<OctreeItem>)
    ensures
        octants(elems).len() == 8,
        flat(octants(elems)).to_multiset() == elems.to_multiset(),
        elems.len() >= 2 ==> forall|k: int|
            0 <= k < 8 ==> (#[trigger] octants(elems)[k]).len() < elems.len(),
        forall|k: int, i: int|
            0 <= k < 8 && 0 <= i < octants(elems)[k].len() ==> elems.contains(
                #[trigger] octants(elems)[k][i],
            ),
{
    lemma_octants_items(elems);
    if elems.len() >= 2 {
        assert forall|k: int| 0 <= k < 8 implies (#[trigger] octants(elems)[k]).len()
            < elems.len() by {
            lemma_octants_shorter(elems, k);
        }
    }
    assert forall|k: int, i: int|
        0 <= k < 8 && 0 <= i < octants(elems)[k].len() implies elems.contains(
        #[trigger] octants(elems)[k][i],
    ) by {
        lemma_flat_contains(octants(elems), k, i);
        vstd::seq_lib::to_multiset_contains(flat(octants(elems)), octants(elems)[k][i]);
        vstd::seq_lib::to_multiset_contains(elems, octants(elems)[k][i]);
    }
}

/// The eight parts of the items.
pub fn split_octants(elems: Vec<OctreeItem>) -> (parts: Vec<Vec<OctreeItem>>)
    ensures
        parts@.len() == 8,
        forall|k: int| 0 <= k < 8 ==> (#[trigger] parts@[k])@ == octants(elems@)[k],
{
    let (left, right) = sort_and_split(elems, 0);
    let (left_bot, left_top) = sort_and_split(left, 1);
    let (right_bot, right_top) = sort_and_split(right, 1);
    let (left_bot_near, left_bot_far) = sort_and_split(left_bot, 2);
    let (left_top_near, left_top_far) = sort_and_split(left_top, 2);
    let (right_bot_near, right_bot_far) = sort_and_split(right_bot, 2);
    let (right_top_near, right_top_far) = sort_and_split(right_top, 2);
    let mut parts: Vec<Vec<OctreeItem>> = Vec::new();
    parts.push(left_bot_near);
    parts.push(left_bot_far);
    parts.push(left_top_near);
    parts.push(left_top_far);
    parts.push(right_bot_near);
    parts.push(right_bot_far);
    parts.push(right_top_near);
    parts.push(right_top_far);
    parts
}

/// A leaf: up to eight primitives, listed by their ids from the first slot
/// on.
#[derive(Debug)]
pub struct OctreeLeafNode {
    pub parent: Option<usize>,
    pub bb: Aabb,
    pub items: [Option<usize>; 8],
}

/// An inner node: up to eight children, each in the slot of its part.
#[derive(Debug)]
pub struct OctreeInnerNode {
    pub parent: Option<usize>,
    pub bb: Aabb,
    pub children: [Option<usize>; 8],
}

/// A node of the octree.
#[derive(Debug)]
pub enum OctreeNode {
    Leaf(OctreeLeafNode),
    Inner(OctreeInnerNode),
}

impl OctreeLeafNode {
    /// A leaf without parent or items, with the box that holds no point.
    pub fn new() -> (leaf: OctreeLeafNode)
        ensures
            leaf.parent is None,
            leaf.bb == Aabb::empty(),
            forall|k: int| 0 <= k < 8 ==> (#[trigger] leaf.items@[k]) is None,
    {
        OctreeLeafNode {
            parent: None,
            bb: Aabb::new(),
            items: [None, None, None, None, None, None, None, None],
        }
    }
}

impl OctreeInnerNode {
    /// An inner node without parent or children, with the box that holds no
    /// point.
    pub fn new() -> (inner: OctreeInnerNode)
        ensures
            inner.parent is None,
            inner.bb == Aabb::empty(),
            forall|k: int| 0 <= k < 8 ==> (#[trigger] inner.children@[k]) is None,
    {
        OctreeInnerNode {
            parent: None,
            bb: Aabb::new(),
            children: [None, None, None, None, None, None, None, None],
        }
    }
}

impl OctreeNode {
    /// The box of the node.
    pub open spec fn bound(&self) -> Aabb {
        match self {
            OctreeNode::Inner(n) => n.bb,
            OctreeNode::Leaf(n) => n.bb,
        }
    }

    /// The box of the node.
    pub fn get_bb(&self) -> (bb: Aabb)
        ensures
            bb == self.bound(),
    {
        match self {
            OctreeNode::Inner(n) => n.bb,
            OctreeNode::Leaf(n) => n.bb,
        }
    }
}

/// Whether the slots of a leaf list the items: slot `i` holds the id of
/// item `i`, and the slots behind the last item are empty.
pub open spec fn holds_items(slots: Seq<Option<usize>>, elems: Seq<OctreeItem>) -> bool {
    &&& slots.len() == 8
    &&& elems.len() <= 8
    &&& forall|i: int|
        0 <= i < 8 ==> #[trigger] slots[i] == if i < elems.len() {
            Some(elems[i].idx)
        } else {
            None::<usize>
        }
}

/// Whether the tree under node `r` is the octree over the items, with the
/// given parent and for leaves of up to `capacity` items.
///
/// Items that fit a leaf are listed by a leaf. Else the node is an inner
/// node; each of the eight parts of the items that is not empty has its
/// tree as the child in the slot of the part, behind the node in the array,
/// and the slots of empty parts are empty. The box of every node is the
/// join of the boxes of the primitives under it.
pub open spec fn is_octree(
    nodes: Seq<OctreeNode>,
    boxes: Seq<Aabb>,
    r: int,
    elems: Seq<OctreeItem>,
    parent: Option<usize>,
    capacity: nat,
) -> bool
    decreases elems.len(),
{
    &&& 0 <= r < nodes.len()
    &&& 1 <= capacity <= 8
    &&& nodes[r].bound() == join_all(boxes, idxs_of(elems))
    &&& if elems.len() <= capacity {
        &&& nodes[r] matches OctreeNode::Leaf(leaf)
        &&& leaf.parent == parent
        &&& holds_items(leaf.items@, elems)
    } else {
        &&& nodes[r] matches OctreeNode::Inner(inner)
        &&& inner.parent == parent
        &&& inner.children@.len() == 8
        &&& forall|k: int|
            #![trigger octants(elems)[k]]
            0 <= k < 8 ==> {
                if octants(elems)[k].len() == 0 {
                    inner.children@[k] is None
                } else {
                    proof {
                        lemma_octants(elems);
                    }
                    &&& inner.children@[k] matches Some(c)
                    &&& r < c < nodes.len()
                    &&& is_octree(nodes, boxes, c as int, octants(elems)[k], Some(r as usize), capacity)
                }
            }
    }
}

/// An octree is not touched by changes to the nodes that stand before its
/// root nor by nodes that are added behind the array.
pub proof fn lemma_octree_frame(
    nodes: Seq<OctreeNode>,
    later: Seq<OctreeNode>,
    boxes: Seq<Aabb>,
    r: int,
    elems: Seq<OctreeItem>,
    parent: Option<usize>,
    capacity: nat,
)
    requires
        is_octree(nodes, boxes, r, elems, parent, capacity),
        nodes.len() <= later.len(),
        forall|k: int| r <= k < nodes.len() ==> nodes[k] == later[k],
    ensures
        is_octree(later, boxes, r, elems, parent, capacity),
    decreases elems.len(),
{
    if elems.len() > capacity {
        lemma_octants(elems);
        let inner = nodes[r]->Inner_0;
        assert forall|k: int| #![trigger octants(elems)[k]] 0 <= k < 8 implies {
            if octants(elems)[k].len() == 0 {
                inner.children@[k] is None
            } else {
                &&& inner.children@[k] matches Some(c)
                &&& r < c < later.len()
                &&& is_octree(later, boxes, c as int, octants(elems)[k], Some(r as usize), capacity)
            }
        } by {
            if octants(elems)[k].len() != 0 {
                let c = inner.children@[k]->0;
                lemma_octree_frame(
                    nodes,
                    later,
                    boxes,
                    c as int,
                    octants(elems)[k],
                    Some(r as usize),
                    capacity,
                );
            }
        }
    }
}

impl OctreeNode {
    /// Gives the node another box.
    pub fn set_bb(&mut self, bb: Aabb)
        ensures
            final(self).bound() == bb,
            match *old(self) {
                OctreeNode::Inner(n) => *final(self) == OctreeNode::Inner(
                    OctreeInnerNode { bb, ..n },
                ),
                OctreeNode::Leaf(n) => *final(self) == OctreeNode::Leaf(OctreeLeafNode { bb, ..n }),
            },
    {
        match self {
            OctreeNode::Inner(n) => n.bb = bb,
            OctreeNode::Leaf(n) => n.bb = bb,
        }
    }

    /// Puts a child into a slot of an inner node.
    pub fn set_child(&mut self, child_idx: usize, val: usize)
        requires
            *old(self) is Inner,
            child_idx < OCTREE_MAX_NUM_CHILDREN,
        ensures
            *final(self) is Inner,
            final(self)->Inner_0.parent == old(self)->Inner_0.parent,
            final(self)->Inner_0.bb == old(self)->Inner_0.bb,
            final(self)->Inner_0.children@ == old(self)->Inner_0.children@.update(
                child_idx as int,
                Some(val),
            ),
    {
        match self {
            OctreeNode::Inner(n) => {
                n.children[child_idx] = Some(val);
            },
            OctreeNode::Leaf(_) => {},
        }
    }
}

/// A copy of the items.
fn copy_of(elems: &[OctreeItem]) -> (copy: Vec<OctreeItem>)
    ensures
        copy@ == elems@,
{
    let mut copy: Vec<OctreeItem> = Vec::new();
    let mut i: usize = 0;
    while i < elems.len()
        invariant
            i <= elems@.len(),
            copy@ == elems@.take(i as int),
        decreases elems@.len() - i,
    {
        copy.push(elems[i]);
        proof {
            assert(copy@ =~= elems@.take(i as int + 1));
        }
        i += 1;
    }
    proof {
        assert(elems@.take(elems@.len() as int) =~= elems@);
    }
    copy
}

/// An octree in one array of nodes, with the root at index 0.
pub struct Octree {
    pub nodes: Vec<OctreeNode>,
    pub max_node_capacity: usize,
}

impl Octree {
    /// Appends a leaf over the items and returns its index.
    pub fn push_leaf(
        &mut self,
        boxes: &Vec<Aabb>,
        elems: &[OctreeItem],
        parent_idx: Option<usize>,
    ) -> (idx: usize)
        requires
            elems@.len() <= OCTREE_MAX_NUM_CHILDREN,
            forall|i: int| 0 <= i < elems@.len() ==> (#[trigger] elems@[i]).idx < boxes@.len(),
        ensures
            idx == old(self).nodes@.len(),
            final(self).max_node_capacity == old(self).max_node_capacity,
            final(self).nodes@.len() == idx + 1,
            final(self).nodes@.take(idx as int) == old(self).nodes@,
            final(self).nodes@[idx as int] matches OctreeNode::Leaf(leaf) && leaf.parent
                == parent_idx && leaf.bb == join_all(boxes@, idxs_of(elems@)) && holds_items(
                leaf.items@,
                elems@,
            ),
    {
        let mut leaf = OctreeLeafNode::new();
        leaf.parent = parent_idx;
        let mut i: usize = 0;
        while i < elems.len()
            invariant
                i <= elems@.len(),
                elems@.len() <= OCTREE_MAX_NUM_CHILDREN,
                forall|k: int| 0 <= k < elems@.len() ==> (#[trigger] elems@[k]).idx < boxes@.len(),
                leaf.parent == parent_idx,
                leaf.bb == join_all(boxes@, idxs_of(elems@.take(i as int))),
                leaf.items@.len() == 8,
                forall|k: int|
                    0 <= k < 8 ==> #[trigger] leaf.items@[k] == if k < i {
                        Some(elems@[k].idx)
                    } else {
                        None::<usize>
                    },
            decreases elems@.len() - i,
        {
            proof {
                let next = idxs_of(elems@.take(i as int + 1));
                assert(next.drop_last() =~= idxs_of(elems@.take(i as int)));
                assert(next.last() == elems@[i as int].idx);
            }
            let item = elems[i];
            leaf.items[i] = Some(item.idx);
            leaf.bb = leaf.bb + boxes[item.idx];
            i += 1;
        }
        proof {
            assert(elems@.take(elems@.len() as int) =~= elems@);
        }
        let ghost before = self.nodes@;
        self.nodes.push(OctreeNode::Leaf(leaf));
        proof {
            assert(self.nodes@.take(before.len() as int) =~= before);
        }
        self.nodes.len() - 1
    }

    /// Appends an inner node without children and returns its index.
    pub fn push_inner(&mut self, parent_idx: Option<usize>) -> (idx: usize)
        ensures
            idx == old(self).nodes@.len(),
            final(self).max_node_capacity == old(self).max_node_capacity,
            final(self).nodes@.len() == idx + 1,
            final(self).nodes@.take(idx as int) == old(self).nodes@,
            final(self).nodes@[idx as int] matches OctreeNode::Inner(inner) && inner.parent
                == parent_idx && inner.bb == Aabb::empty() && forall|k: int|
                0 <= k < 8 ==> (#[trigger] inner.children@[k]) is None,
    {
        let mut inner = OctreeInnerNode::new();
        inner.parent = parent_idx;
        let ghost before = self.nodes@;
        self.nodes.push(OctreeNode::Inner(inner));
        proof {
            assert(self.nodes@.take(before.len() as int) =~= before);
        }
        self.nodes.len() - 1
    }

    /// Builds the octree over the items behind the nodes that are there,
    /// and returns the index and the box of its root.
    #[verifier::rlimit(40)]
    pub fn build(&mut self, boxes: &Vec<Aabb>, elems: &[OctreeItem], parent_idx: Option<usize>) -> (root:
        (usize, Aabb))
        requires
            1 <= old(self).max_node_capacity <= OCTREE_MAX_NUM_CHILDREN,
            forall|i: int| 0 <= i < elems@.len() ==> (#[trigger] elems@[i]).idx < boxes@.len(),
        ensures
            root.0 == old(self).nodes@.len(),
            final(self).max_node_capacity == old(self).max_node_capacity,
            final(self).nodes@.len() > root.0,
            final(self).nodes@.take(root.0 as int) == old(self).nodes@,
            root.1 == final(self).nodes@[root.0 as int].bound(),
            is_octree(
                final(self).nodes@,
                boxes@,
                root.0 as int,
                elems@,
                parent_idx,
                old(self).max_node_capacity as nat,
            ),
        decreases elems@.len(),
    {
        let ghost before = self.nodes@;
        let ghost capacity = self.max_node_capacity as nat;
        if elems.len() <= self.max_node_capacity {
            let leaf_idx = self.push_leaf(boxes, elems, parent_idx);
            let leaf_bb = self.nodes[leaf_idx].get_bb();
            return (leaf_idx, leaf_bb);
        }
        let inner_idx = self.push_inner(parent_idx);
        let parts = split_octants(copy_of(elems));
        proof {
            lemma_octants(elems@);
        }
        let mut inner = OctreeInnerNode::new();
        inner.parent = parent_idx;
        let mut inner_bb = Aabb::new();
        let mut k: usize = 0;
        proof {
            assert(octants(elems@).take(0) =~= Seq::<Seq<OctreeItem>>::empty());
            assert(idxs_of(flat(octants(elems@).take(0))) =~= Seq::<usize>::empty());
        }
        while k < 8
            invariant
                k <= 8,
                capacity == self.max_node_capacity,
                1 <= capacity <= 8,
                capacity < elems@.len(),
                inner_idx == before.len(),
                self.nodes@.len() > inner_idx,
                self.nodes@.take(inner_idx as int) == before,
                parts@.len() == 8,
                forall|j: int| 0 <= j < 8 ==> (#[trigger] parts@[j])@ == octants(elems@)[j],
                forall|i: int| 0 <= i < elems@.len() ==> (#[trigger] elems@[i]).idx < boxes@.len(),
                inner.parent == parent_idx,
                inner.children@.len() == 8,
                inner_bb == join_all(boxes@, idxs_of(flat(octants(elems@).take(k as int)))),
                forall|j: int|
                    #![trigger octants(elems@)[j]]
                    0 <= j < 8 ==> {
                        if j >= k || octants(elems@)[j].len() == 0 {
                            inner.children@[j] is None
                        } else {
                            &&& inner.children@[j] matches Some(c)
                            &&& inner_idx < c < self.nodes@.len()
                            &&& is_octree(
                                self.nodes@,
                                boxes@,
                                c as int,
                                octants(elems@)[j],
                                Some(inner_idx),
                                capacity,
                            )
                        }
                    },
            decreases 8 - k,
        {
            let ghost part = octants(elems@)[k as int];
            let ghost nodes_before = self.nodes@;
            let ghost inner_before = inner;
            proof {
                let upto = octants(elems@).take(k as int + 1);
                assert(upto.drop_last() =~= octants(elems@).take(k as int));
                assert(upto.last() == part);
                assert(idxs_of(flat(upto)) =~= idxs_of(flat(octants(elems@).take(k as int)))
                    + idxs_of(part));
                crate::bvh::lemma_join_all_concat(
                    boxes@,
                    idxs_of(flat(octants(elems@).take(k as int))),
                    idxs_of(part),
                );
                lemma_octants(elems@);
                assert forall|i: int| 0 <= i < part.len() implies (#[trigger] part[i]).idx
                    < boxes@.len() by {
                    assert(elems@.contains(octants(elems@)[k as int][i]));
                }
            }
            if parts[k].len() > 0 {
                let (child_idx, child_bb) = self.build(boxes, parts[k].as_slice(), Some(inner_idx));
                inner.children[k] = Some(child_idx);
                inner_bb = inner_bb + child_bb;
                proof {
                    assert(self.nodes@.take(inner_idx as int) =~= nodes_before.take(
                        inner_idx as int,
                    ));
                    assert forall|j: int| #![trigger octants(elems@)[j]] 0 <= j < 8 implies {
                        if j >= k + 1 || octants(elems@)[j].len() == 0 {
                            inner.children@[j] is None
                        } else {
                            &&& inner.children@[j] matches Some(c)
                            &&& inner_idx < c < self.nodes@.len()
                            &&& is_octree(
                                self.nodes@,
                                boxes@,
                                c as int,
                                octants(elems@)[j],
                                Some(inner_idx),
                                capacity,
                            )
                        }
                    } by {
                        if j < k && octants(elems@)[j].len() != 0 {
                            let c = inner_before.children@[j]->0;
                            assert forall|m: int| c <= m < nodes_before.len() implies nodes_before[m]
                                == self.nodes@[m] by {
                                assert(self.nodes@.take(nodes_before.len() as int)[m]
                                    == nodes_before[m]);
                            }
                            lemma_octree_frame(
                                nodes_before,
                                self.nodes@,
                                boxes@,
                                c as int,
                                octants(elems@)[j],
                                Some(inner_idx),
                                capacity,
                            );
                        }
                    }
                }
            } else {
                proof {
                    assert(idxs_of(part) =~= Seq::<usize>::empty());
                    crate::bvh::lemma_join_all_least(
                        boxes@,
                        idxs_of(flat(octants(elems@).take(k as int))),
                    );
                }
            }
            k += 1;
        }
        inner.bb = inner_bb;
        let ghost children = inner.children@;
        let ghost built = self.nodes@;
        self.nodes.set(inner_idx, OctreeNode::Inner(inner));
        proof {
            let done = self.nodes@;
            assert(octants(elems@).take(8) =~= octants(elems@));
            lemma_same_items_same_idxs(flat(octants(elems@)), elems@);
            crate::bvh::lemma_join_all_same_members(
                boxes@,
                idxs_of(flat(octants(elems@))),
                idxs_of(elems@),
            );
            assert(done.take(inner_idx as int) =~= before);
            assert forall|j: int| #![trigger octants(elems@)[j]] 0 <= j < 8 implies {
                if octants(elems@)[j].len() == 0 {
                    children[j] is None
                } else {
                    &&& children[j] matches Some(c)
                    &&& inner_idx < c < done.len()
                    &&& is_octree(
                        done,
                        boxes@,
                        c as int,
                        octants(elems@)[j],
                        Some(inner_idx),
                        capacity,
                    )
                }
            } by {
                if octants(elems@)[j].len() != 0 {
                    let c = children[j]->0;
                    lemma_octree_frame(
                        built,
                        done,
                        boxes@,
                        c as int,
                        octants(elems@)[j],
                        Some(inner_idx),
                        capacity,
                    );
                }
            }
        }
        (inner_idx, inner_bb)
    }

    /// The octree over all primitives with the given boxes, for leaves of up
    /// to `max_node_capacity` items. The centroid of each box comes from
    /// `midpoint`.
    pub fn new<M: Fn(i32, i32) -> i32>(
        boxes: &Vec<Aabb>,
        max_node_capacity: usize,
        midpoint: &M,
    ) -> (octree: Octree)
        requires
            1 <= max_node_capacity <= OCTREE_MAX_NUM_CHILDREN,
            forall|a: i32, b: i32| call_requires(midpoint, (a, b)),
        ensures
            octree.max_node_capacity == max_node_capacity,
            exists|items: Seq<OctreeItem>|
                {
                    &&& are_items(*midpoint, boxes@, items)
                    &&& #[trigger] is_octree(
                        octree.nodes@,
                        boxes@,
                        0,
                        items,
                        None,
                        max_node_capacity as nat,
                    )
                },
    {
        let mut octree = Octree { nodes: Vec::new(), max_node_capacity };
        let mut items: Vec<OctreeItem> = Vec::new();
        let mut idx: usize = 0;
        while idx < boxes.len()
            invariant
                idx <= boxes@.len(),
                forall|a: i32, b: i32| call_requires(midpoint, (a, b)),
                are_items(*midpoint, boxes@.take(idx as int), items@),
            decreases boxes@.len() - idx,
        {
            let centroid = boxes[idx].get_centroid(midpoint);
            items.push(OctreeItem { idx, centroid });
            idx += 1;
        }
        proof {
            assert(boxes@.take(boxes@.len() as int) =~= boxes@);
        }
        octree.build(boxes, items.as_slice(), None);
        octree
    }
}

/// Whether the list names the primitives `0`, `1`, .. in this order, each
/// with a centroid that `midpoint` made of its box.
pub open spec fn are_items<M: Fn(i32, i32) -> i32>(
    midpoint: M,
    boxes: Seq<Aabb>,
    items: Seq<OctreeItem>,
) -> bool {
    &&& items.len() == boxes.len()
    &&& forall|i: int|
        0 <= i < items.len() ==> (#[trigger] items[i]).idx == i && crate::aabb::is_centroid(
            midpoint,
            boxes[i],
            items[i].centroid,
        )
}

/// Every item of an octree is listed by a leaf of the tree.
pub proof fn lemma_octree_complete(
    nodes: Seq<OctreeNode>,
    boxes: Seq<Aabb>,
    r: int,
    elems: Seq<OctreeItem>,
    parent: Option<usize>,
    capacity: nat,
    e: OctreeItem,
) -> (x: int)
    requires
        is_octree(nodes, boxes, r, elems, parent, capacity),
        elems.contains(e),
    ensures
        r <= x < nodes.len(),
        nodes[x] matches OctreeNode::Leaf(leaf) && leaf.items@.contains(Some(e.idx)),
    decreases elems.len(),
{
    if elems.len() <= capacity {
        let i = choose|i: int| 0 <= i < elems.len() && elems[i] == e;
        let leaf = nodes[r]->Leaf_0;
        assert(leaf.items@[i] == Some(e.idx));
        r
    } else {
        lemma_octants(elems);
        let parts = octants(elems);
        let inner = nodes[r]->Inner_0;
        // the item is in one of the parts
        vstd::seq_lib::to_multiset_contains(elems, e);
        vstd::seq_lib::to_multiset_contains(flat(parts), e);
        let k = lemma_flat_part_of(parts, e);
        assert(parts[k].len() > 0);
        let c = inner.children@[k]->0;
        assert(is_octree(nodes, boxes, c as int, octants(elems)[k], Some(r as usize), capacity));
        lemma_octree_complete(nodes, boxes, c as int, parts[k], Some(r as usize), capacity, e)
    }
}

/// An item of the lists one after the other is an item of one of them.
pub proof fn lemma_flat_part_of(parts: Seq<Seq<OctreeItem>>, e: OctreeItem) -> (k: int)
    requires
        flat(parts).contains(e),
    ensures
        0 <= k < parts.len(),
        parts[k].contains(e),
    decreases parts.len(),
{
    if parts.len() == 0 {
        0
    } else {
        let front = flat(parts.drop_last());
        let m = choose|m: int| 0 <= m < flat(parts).len() && flat(parts)[m] == e;
        if m < front.len() {
            assert(front[m] == e);
            lemma_flat_part_of(parts.drop_last(), e)
        } else {
            assert(parts.last()[m - front.len()] == e);
            parts.len() - 1
        }
    }
}

/// The box of an inner node of an octree encloses the boxes of its
/// children, and the box of a leaf the boxes of its primitives.
#[verifier::rlimit(40)]
pub proof fn lemma_octree_encloses(
    nodes: Seq<OctreeNode>,
    boxes: Seq<Aabb>,
    r: int,
    elems: Seq<OctreeItem>,
    parent: Option<usize>,
    capacity: nat,
)
    requires
        is_octree(nodes, boxes, r, elems, parent, capacity),
    ensures
        forall|i: int|
            0 <= i < elems.len() ==> nodes[r].bound().encloses(#[trigger] boxes[elems[i].idx as int]),
        nodes[r] matches OctreeNode::Inner(inner) ==> forall|k: int|
            0 <= k < 8 ==> ((#[trigger] inner.children@[k]) matches Some(c) ==> nodes[r].bound().encloses(
                nodes[c as int].bound(),
            )),
{
    crate::bvh::lemma_join_all_least(boxes, idxs_of(elems));
    assert forall|i: int| 0 <= i < elems.len() implies nodes[r].bound().encloses(
        #[trigger] boxes[elems[i].idx as int],
    ) by {
        assert(idxs_of(elems)[i] == elems[i].idx);
    }
    if elems.len() > capacity {
        lemma_octants(elems);
        let inner = nodes[r]->Inner_0;
        assert forall|k: int| 0 <= k < 8 implies ((#[trigger] inner.children@[k]) matches Some(
            c,
        ) ==> nodes[r].bound().encloses(nodes[c as int].bound())) by {
            let part = octants(elems)[k];
            if inner.children@[k] is Some {
                let c = inner.children@[k]->0;
                assert(part.len() != 0);
                assert(is_octree(nodes, boxes, c as int, octants(elems)[k], Some(r as usize), capacity));
                crate::bvh::lemma_join_all_least(boxes, idxs_of(part));
                assert forall|i: int| 0 <= i < idxs_of(part).len() implies nodes[r].bound().encloses(
                    #[trigger] boxes[idxs_of(part)[i] as int],
                ) by {
                    assert(elems.contains(octants(elems)[k][i]));
                    let m = choose|m: int| 0 <= m < elems.len() && elems[m] == part[i];
                    assert(nodes[r].bound().encloses(boxes[elems[m].idx as int]));
                }
            }
        }
    }
}

} // verus!
