//! The search for the nearest hit of a ray in a hierarchy, as mathematics.
//!
//! A ray is known here by its answers alone: for each node, the distance at
//! which it enters the node's box, if it meets the box at all; for each
//! primitive, the distance at which it hits the primitive, if it does.
//! Distances are ordered coordinates; zero and what lies above it are the
//! distances in front of the ray's origin.

use crate::bvh::{subtree_ids, tree_wf, Node};
use crate::aabb::Aabb;
use vstd::prelude::*;

verus! {

/// The nearest hit found so far: the primitive's id and the distance.
pub type Hit = Option<(usize, i32)>;

/// The best hit after primitive `id` has answered `d`: the new hit if it
/// lies in front of the origin and nearer than the best so far, else the
/// best so far.
pub open spec fn consider(best: Hit, id: usize, d: Option<i32>) -> Hit {
    match d {
        Some(t) => if t >= 0 && (best matches Some(b) ==> t < b.1) {
            Some((id, t))
        } else {
            best
        },
        None => best,
    }
}

/// The best hit after the listed primitives have answered, one after the
/// other.
pub open spec fn consider_all(best: Hit, ids: Seq<usize>, dist: Seq<Option<i32>>) -> Hit
    decreases ids.len(),
{
    if ids.len() == 0 {
        best
    } else {
        consider(consider_all(best, ids.drop_last(), dist), ids.last(), dist[ids.last() as int])
    }
}

/// Whether a node is passed over: its box is missed, or entered only
/// beyond the best hit so far.
pub open spec fn passes_over(best: Hit, entry: Option<i32>) -> bool {
    match entry {
        None => true,
        Some(e) => best matches Some(b) && e > b.1,
    }
}

/// The best hit after the tree under node `r` has been searched. Of an
/// inner node the second child is searched first.
pub open spec fn visit(
    nodes: Seq<Node>,
    enter: Seq<Option<i32>>,
    dist: Seq<Option<i32>>,
    r: int,
    best: Hit,
) -> Hit
    decreases nodes.len() - r,
{
    if !(0 <= r < nodes.len()) {
        best
    } else if passes_over(best, enter[r]) {
        best
    } else if nodes[r].children@.len() == 2 && r < nodes[r].children@[0] < nodes.len() && r
        < nodes[r].children@[1] < nodes.len() {
        visit(
            nodes,
            enter,
            dist,
            nodes[r].children@[0] as int,
            visit(nodes, enter, dist, nodes[r].children@[1] as int, best),
        )
    } else {
        consider_all(best, nodes[r].pointers@, dist)
    }
}

/// The best hit after the trees under the listed nodes have been searched,
/// the last of the list first.
pub open spec fn visit_stack(
    nodes: Seq<Node>,
    enter: Seq<Option<i32>>,
    dist: Seq<Option<i32>>,
    stack: Seq<usize>,
    best: Hit,
) -> Hit
    decreases stack.len(),
{
    if stack.len() == 0 {
        best
    } else {
        visit_stack(
            nodes,
            enter,
            dist,
            stack.drop_last(),
            visit(nodes, enter, dist, stack.last() as int, best),
        )
    }
}

/// What the search of the whole hierarchy finds: nothing where there are no
/// nodes, else what the search from the root finds.
pub open spec fn search(nodes: Seq<Node>, enter: Seq<Option<i32>>, dist: Seq<Option<i32>>) -> Hit {
    if nodes.len() == 0 {
        None
    } else {
        visit(nodes, enter, dist, 0, None)
    }
}

/// The number of nodes of the tree under node `r`.
pub open spec fn subtree_size(nodes: Seq<Node>, r: int) -> nat
    decreases nodes.len() - r,
{
    if 0 <= r < nodes.len() && nodes[r].children@.len() == 2 && r < nodes[r].children@[0]
        < nodes.len() && r < nodes[r].children@[1] < nodes.len() {
        1 + subtree_size(nodes, nodes[r].children@[0] as int) + subtree_size(
            nodes,
            nodes[r].children@[1] as int,
        )
    } else {
        1
    }
}

/// The number of nodes of the trees under the listed nodes.
pub open spec fn stack_size(nodes: Seq<Node>, stack: Seq<usize>) -> nat
    decreases stack.len(),
{
    if stack.len() == 0 {
        0
    } else {
        stack_size(nodes, stack.drop_last()) + subtree_size(nodes, stack.last() as int)
    }
}

/// Whether `hit` is a nearest hit among the answers: it names a primitive
/// that answered with that distance, the distance lies in front of the
/// origin, and no primitive answered with a nearer one that does; or it is
/// nothing, and no primitive answered with a distance in front of the
/// origin.
pub open spec fn is_nearest(dist: Seq<Option<i32>>, hit: Hit) -> bool {
    match hit {
        Some((id, t)) => {
            &&& id < dist.len()
            &&& dist[id as int] == Some(t)
            &&& t >= 0
            &&& forall|k: int|
                0 <= k < dist.len() ==> ((#[trigger] dist[k]) matches Some(u) ==> u < 0 || t <= u)
        },
        None => forall|k: int|
            0 <= k < dist.len() ==> ((#[trigger] dist[k]) matches Some(u) ==> u < 0),
    }
}

/// What a search of the primitives one by one finds, in the order of their
/// ids.
pub open spec fn brute_force(dist: Seq<Option<i32>>) -> Hit {
    consider_all(None, Seq::new(dist.len(), |i: int| i as usize), dist)
}

/// Whether the answers of the boxes agree with those of the primitives:
/// where a primitive under a node is hit in front of the origin, the node's
/// box is entered, and no later than that hit.
pub open spec fn boxes_agree(
    nodes: Seq<Node>,
    enter: Seq<Option<i32>>,
    dist: Seq<Option<i32>>,
) -> bool {
    forall|r: int, k: int|
        #![trigger subtree_ids(nodes, r)[k]]
        0 <= r < nodes.len() && 0 <= k < subtree_ids(nodes, r).len() && subtree_ids(nodes, r)[k]
            < dist.len() ==> (dist[subtree_ids(nodes, r)[k] as int] matches Some(t) ==> t < 0 || (
        enter[r] matches Some(e) && e <= t))
}

/// Whether `best` is a hit among the answers, in front of the origin.
pub open spec fn is_hit(dist: Seq<Option<i32>>, best: Hit) -> bool {
    best matches Some((id, t)) ==> id < dist.len() && dist[id as int] == Some(t) && t >= 0
}

/// Whether `best` is no further than any hit in front of the origin among
/// the listed primitives.
pub open spec fn beats(dist: Seq<Option<i32>>, best: Hit, ids: Seq<usize>) -> bool {
    forall|k: int|
        0 <= k < ids.len() && (#[trigger] ids[k]) < dist.len() ==> (dist[ids[k] as int] matches Some(
            u,
        ) ==> u < 0 || (best matches Some(b) && b.1 <= u))
}

/// Whether `later` is at least as near as `best`.
pub open spec fn no_further(best: Hit, later: Hit) -> bool {
    best matches Some(b) ==> (later matches Some(l) && l.1 <= b.1)
}

/// Considering the listed primitives keeps a hit a hit, never moves it
/// further, and leaves it no further than any of them.
pub proof fn lemma_consider_all(best: Hit, ids: Seq<usize>, dist: Seq<Option<i32>>)
    requires
        is_hit(dist, best),
        forall|k: int| 0 <= k < ids.len() ==> (#[trigger] ids[k]) < dist.len(),
    ensures
        is_hit(dist, consider_all(best, ids, dist)),
        no_further(best, consider_all(best, ids, dist)),
        beats(dist, consider_all(best, ids, dist), ids),
    decreases ids.len(),
{
    if ids.len() > 0 {
        let front = ids.drop_last();
        lemma_consider_all(best, front, dist);
        let mid = consider_all(best, front, dist);
        let after = consider_all(best, ids, dist);
        assert forall|k: int| 0 <= k < ids.len() && (#[trigger] ids[k]) < dist.len() implies (
        dist[ids[k] as int] matches Some(u) ==> u < 0 || (after matches Some(b) && b.1 <= u)) by {
            if k < front.len() {
                assert(front[k] == ids[k]);
            }
        }
    }
}

/// Searching a well-formed tree whose boxes agree with its primitives keeps
/// a hit a hit, never moves it further, and leaves it no further than any
/// primitive under the tree.
pub proof fn lemma_visit(
    nodes: Seq<Node>,
    boxes: Seq<Aabb>,
    enter: Seq<Option<i32>>,
    dist: Seq<Option<i32>>,
    r: int,
    best: Hit,
)
    requires
        tree_wf(nodes, boxes, r),
        boxes.len() == dist.len(),
        boxes_agree(nodes, enter, dist),
        is_hit(dist, best),
    ensures
        is_hit(dist, visit(nodes, enter, dist, r, best)),
        no_further(best, visit(nodes, enter, dist, r, best)),
        beats(dist, visit(nodes, enter, dist, r, best), subtree_ids(nodes, r)),
    decreases nodes.len() - r,
{
    let ids = subtree_ids(nodes, r);
    crate::bvh::lemma_subtree_ids_in_range(nodes, boxes, r);
    if passes_over(best, enter[r]) {
        assert forall|k: int| 0 <= k < ids.len() && (#[trigger] ids[k]) < dist.len() implies (
        dist[ids[k] as int] matches Some(u) ==> u < 0 || (best matches Some(b) && b.1 <= u)) by {
            assert(subtree_ids(nodes, r)[k] == ids[k]);
        }
    } else if nodes[r].is_leaf() {
        lemma_consider_all(best, nodes[r].pointers@, dist);
    } else {
        let c0 = nodes[r].children@[0] as int;
        let c1 = nodes[r].children@[1] as int;
        let mid = visit(nodes, enter, dist, c1, best);
        lemma_visit(nodes, boxes, enter, dist, c1, best);
        lemma_visit(nodes, boxes, enter, dist, c0, mid);
        let after = visit(nodes, enter, dist, c0, mid);
        let a = subtree_ids(nodes, c0);
        let b = subtree_ids(nodes, c1);
        assert(ids == a + b);
        assert forall|k: int| 0 <= k < ids.len() && (#[trigger] ids[k]) < dist.len() implies (
        dist[ids[k] as int] matches Some(u) ==> u < 0 || (after matches Some(h) && h.1 <= u)) by {
            if k < a.len() {
                assert(a[k] == ids[k]);
            } else {
                assert(b[k - a.len()] == ids[k]);
            }
        }
    }
}

/// A hit that is no further than any primitive is a nearest hit.
pub proof fn lemma_beats_all_is_nearest(dist: Seq<Option<i32>>, best: Hit, ids: Seq<usize>)
    requires
        is_hit(dist, best),
        beats(dist, best, ids),
        forall|i: usize| i < dist.len() ==> #[trigger] ids.contains(i),
        dist.len() <= usize::MAX,
    ensures
        is_nearest(dist, best),
{
    assert forall|k: int| 0 <= k < dist.len() implies ((#[trigger] dist[k]) matches Some(u) ==> u
        < 0 || (best matches Some(b) && b.1 <= u)) by {
        assert(ids.contains(k as usize));
        let m = choose|m: int| 0 <= m < ids.len() && ids[m] == k as usize;
        assert(ids[m] < dist.len());
    }
}

/// The search of the primitives one by one finds a nearest hit.
pub proof fn lemma_brute_force_is_nearest(dist: Seq<Option<i32>>)
    requires
        dist.len() <= usize::MAX,
    ensures
        is_nearest(dist, brute_force(dist)),
{
    let ids = Seq::new(dist.len(), |i: int| i as usize);
    lemma_consider_all(None, ids, dist);
    assert forall|i: usize| i < dist.len() implies #[trigger] ids.contains(i) by {
        assert(ids[i as int] == i);
    }
    lemma_beats_all_is_nearest(dist, brute_force(dist), ids);
}

/// Two nearest hits are equally far, and both are nothing if one is.
pub proof fn lemma_nearest_distance_unique(dist: Seq<Option<i32>>, a: Hit, b: Hit)
    requires
        is_nearest(dist, a),
        is_nearest(dist, b),
    ensures
        a is None <==> b is None,
        a matches Some(x) ==> (b matches Some(y) && x.1 == y.1),
{
    if let Some(x) = a {
        assert(dist[x.0 as int] == Some(x.1));
    }
    if let Some(y) = b {
        assert(dist[y.0 as int] == Some(y.1));
    }
}

/// The search of the hierarchy finds what the search of the primitives one
/// by one finds: both find nothing, or both find a hit at the same distance,
/// each on a primitive that is hit at that distance. This holds of a
/// hierarchy that is well formed, holds every primitive, and whose boxes
/// agree with its primitives.
pub proof fn lemma_search_is_nearest(
    nodes: Seq<Node>,
    boxes: Seq<Aabb>,
    enter: Seq<Option<i32>>,
    dist: Seq<Option<i32>>,
)
    requires
        boxes.len() == dist.len(),
        dist.len() <= usize::MAX,
        nodes.len() > 0 ==> tree_wf(nodes, boxes, 0),
        nodes.len() == 0 ==> dist.len() == 0,
        forall|i: usize| i < dist.len() ==> #[trigger] subtree_ids(nodes, 0).contains(i),
        boxes_agree(nodes, enter, dist),
    ensures
        is_nearest(dist, search(nodes, enter, dist)),
        is_nearest(dist, brute_force(dist)),
        search(nodes, enter, dist) is None <==> brute_force(dist) is None,
        search(nodes, enter, dist) matches Some(found) ==> (brute_force(dist) matches Some(first)
            && found.1 == first.1),
{
    lemma_brute_force_is_nearest(dist);
    if nodes.len() > 0 {
        lemma_visit(nodes, boxes, enter, dist, 0, None);
        lemma_beats_all_is_nearest(dist, search(nodes, enter, dist), subtree_ids(nodes, 0));
    }
    lemma_nearest_distance_unique(dist, search(nodes, enter, dist), brute_force(dist));
}

/// A ray that misses the box of the root finds nothing, whatever it would
/// hit: the search ends at the root.
pub proof fn lemma_miss_at_root(nodes: Seq<Node>, enter: Seq<Option<i32>>, dist: Seq<Option<i32>>)
    requires
        nodes.len() > 0,
        enter[0] is None,
    ensures
        search(nodes, enter, dist) is None,
{
}

} // verus!
