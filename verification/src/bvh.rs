//! Generic bounding-volume-hierarchy builder.
//!
//! The builder turns a mutable sequence of boundable elements into a flat
//! binary tree held in a growable arena of [`BVHNode`]s, rooted at index 0.
//! Node identity is the integer index; children are always appended after
//! their parent. Splitting is top-down at the midpoint of the longest axis
//! of a node's bounds; the element sequence is partitioned in place, so the
//! final physical order of the elements defines leaf membership. A second
//! pass assigns `skip` links for stackless traversal; the root's skip is the
//! arena length, an out-of-range sentinel meaning "traversal complete".
//!
//! The same builder serves per-mesh hierarchies (elements are triangles)
//! and the scene-level hierarchy (elements are instance bounds): an element
//! carries its precomputed bounds and centroid together with an arbitrary
//! payload that is swapped along with it.

use vstd::prelude::*;

use crate::geom::{AABB, Axis};

verus! {

/// One node of a hierarchy. `start`/`end` delimit the node's element range;
/// for an internal node the range is retained (the children partition it)
/// and `left`/`right` index the children; a leaf's child links are zero.
/// `skip` is filled by the skip-link pass.
#[derive(Clone, Copy, Debug, PartialEq, Eq, Structural)]
pub struct BVHNode {
    pub bounds: AABB,
    pub left: usize,
    pub right: usize,
    pub skip: usize,
    pub is_leaf: bool,
    pub start: usize,
    pub end: usize,
}

/// A boundable, swappable element: precomputed bounds, a fixed-point
/// centroid (held at i64 precision), and the payload that travels with it.
#[derive(Clone, Copy, Debug)]
pub struct Element<P> {
    pub bounds: AABB,
    pub cx: i64,
    pub cy: i64,
    pub cz: i64,
    pub item: P,
}

impl<P> Element<P> {
    /// The centroid coordinate on `axis`, as a mathematical integer.
    pub open spec fn cent_on(self, axis: Axis) -> int {
        match axis {
            Axis::X => self.cx as int,
            Axis::Y => self.cy as int,
            Axis::Z => self.cz as int,
        }
    }
}

/// Every element's bounds are well-formed.
pub open spec fn elems_wf<P>(elems: Seq<Element<P>>) -> bool {
    forall|k: int| 0 <= k < elems.len() ==> (#[trigger] elems[k]).bounds.wf()
}

/// `b` covers the bounds of every element of `elems[s..e)`.
pub open spec fn covers_range<P>(b: AABB, elems: Seq<Element<P>>, s: int, e: int) -> bool {
    forall|k: int| s <= k < e ==> b.covers((#[trigger] elems[k]).bounds)
}

/// Each side of `b` touches some element of `elems[s..e)`: the box is tight.
pub open spec fn tight_range<P>(b: AABB, elems: Seq<Element<P>>, s: int, e: int) -> bool {
    &&& exists|k: int| s <= k < e && (#[trigger] elems[k]).bounds.lb.x == b.lb.x
    &&& exists|k: int| s <= k < e && (#[trigger] elems[k]).bounds.lb.y == b.lb.y
    &&& exists|k: int| s <= k < e && (#[trigger] elems[k]).bounds.lb.z == b.lb.z
    &&& exists|k: int| s <= k < e && (#[trigger] elems[k]).bounds.ub.x == b.ub.x
    &&& exists|k: int| s <= k < e && (#[trigger] elems[k]).bounds.ub.y == b.ub.y
    &&& exists|k: int| s <= k < e && (#[trigger] elems[k]).bounds.ub.z == b.ub.z
}

/// `b` is exactly the union of the element bounds over `elems[s..e)`:
/// it covers them all and each of its six sides is attained. Two boxes
/// satisfying this agree.
pub open spec fn is_range_bound<P>(b: AABB, elems: Seq<Element<P>>, s: int, e: int) -> bool {
    covers_range(b, elems, s, e) && tight_range(b, elems, s, e)
}

/// The left-to-right fold of `spec_union` over the element bounds of
/// `elems[s..e)`, seeded with the first element's bounds.
pub open spec fn range_bounds<P>(elems: Seq<Element<P>>, s: int, e: int) -> AABB
    recommends
        0 <= s < e <= elems.len(),
    decreases e - s,
{
    if e <= s + 1 {
        elems[s].bounds
    } else {
        range_bounds(elems, s, e - 1).spec_union(elems[e - 1].bounds)
    }
}

/// The fold over a nonempty range is exactly its range bound, and it is
/// well-formed when the elements are.
pub proof fn lemma_range_bounds_is_bound<P>(elems: Seq<Element<P>>, s: int, e: int)
    requires
        0 <= s < e <= elems.len(),
        forall|k: int| s <= k < e ==> (#[trigger] elems[k]).bounds.wf(),
    ensures
        is_range_bound(range_bounds(elems, s, e), elems, s, e),
        range_bounds(elems, s, e).wf(),
    decreases e - s,
{
    if e <= s + 1 {
    } else {
        lemma_range_bounds_is_bound(elems, s, e - 1);
    }
}

/// A range bound is unique: any two boxes that both cover a range tightly
/// are equal.
pub proof fn lemma_range_bound_unique<P>(b1: AABB, b2: AABB, elems: Seq<Element<P>>, s: int, e: int)
    requires
        is_range_bound(b1, elems, s, e),
        is_range_bound(b2, elems, s, e),
    ensures
        b1 == b2,
{
}

/// Range bounds only depend on the elements of the range itself.
pub proof fn lemma_range_bound_frame<P>(
    b: AABB,
    pre: Seq<Element<P>>,
    post: Seq<Element<P>>,
    s: int,
    e: int,
)
    requires
        is_range_bound(b, pre, s, e),
        forall|k: int| s <= k < e ==> post[k] == pre[k],
    ensures
        is_range_bound(b, post, s, e),
{
    assert forall|k: int| s <= k < e implies b.covers((#[trigger] post[k]).bounds) by {
        assert(pre[k].bounds == post[k].bounds);
    }
    assert(tight_range(b, post, s, e)) by {
        let k1 = choose|k: int| s <= k < e && (#[trigger] pre[k]).bounds.lb.x == b.lb.x;
        assert(post[k1].bounds.lb.x == b.lb.x);
        let k2 = choose|k: int| s <= k < e && (#[trigger] pre[k]).bounds.lb.y == b.lb.y;
        assert(post[k2].bounds.lb.y == b.lb.y);
        let k3 = choose|k: int| s <= k < e && (#[trigger] pre[k]).bounds.lb.z == b.lb.z;
        assert(post[k3].bounds.lb.z == b.lb.z);
        let k4 = choose|k: int| s <= k < e && (#[trigger] pre[k]).bounds.ub.x == b.ub.x;
        assert(post[k4].bounds.ub.x == b.ub.x);
        let k5 = choose|k: int| s <= k < e && (#[trigger] pre[k]).bounds.ub.y == b.ub.y;
        assert(post[k5].bounds.ub.y == b.ub.y);
        let k6 = choose|k: int| s <= k < e && (#[trigger] pre[k]).bounds.ub.z == b.ub.z;
        assert(post[k6].bounds.ub.z == b.ub.z);
    }
}

/// The split axis: the axis of greatest extent of `b`, ties broken in the
/// order x, y, z with strict comparisons.
pub open spec fn spec_split_axis(b: AABB) -> Axis {
    let ex = b.extent_on(Axis::X);
    let ey = b.extent_on(Axis::Y);
    let ez = b.extent_on(Axis::Z);
    let a0 = if ey > ex {
        Axis::Y
    } else {
        Axis::X
    };
    let e0 = if ey > ex {
        ey
    } else {
        ex
    };
    if ez > e0 {
        Axis::Z
    } else {
        a0
    }
}

/// The split coordinate: the midpoint of `b`'s extent on the split axis
/// (integer division, rounding toward the lower corner).
pub open spec fn spec_split_coord(b: AABB) -> int {
    let axis = spec_split_axis(b);
    b.lb.on_axis(axis) + b.extent_on(axis) / 2
}

/// Every centroid of `elems[s..e)` lies strictly below `split` on `axis`.
pub open spec fn all_below<P>(elems: Seq<Element<P>>, s: int, e: int, axis: Axis, split: int) -> bool {
    forall|k: int| s <= k < e ==> (#[trigger] elems[k]).cent_on(axis) < split
}

/// Every centroid of `elems[s..e)` lies at or above `split` on `axis`.
pub open spec fn all_at_or_above<P>(
    elems: Seq<Element<P>>,
    s: int,
    e: int,
    axis: Axis,
    split: int,
) -> bool {
    forall|k: int| s <= k < e ==> (#[trigger] elems[k]).cent_on(axis) >= split
}

/// The midpoint split of `elems[s..e)` under bounds `b` is degenerate: all
/// centroids fall on one side, so the partition would leave one half empty.
pub open spec fn split_degenerate<P>(elems: Seq<Element<P>>, s: int, e: int, b: AABB) -> bool {
    ||| all_below(elems, s, e, spec_split_axis(b), spec_split_coord(b))
    ||| all_at_or_above(elems, s, e, spec_split_axis(b), spec_split_coord(b))
}

/// Exchange the elements at `i` and `j`.
fn swap_elems<P: Copy>(elems: &mut Vec<Element<P>>, i: usize, j: usize)
    requires
        i < old(elems).len(),
        j < old(elems).len(),
    ensures
        final(elems)@ == old(elems)@.update(i as int, old(elems)@[j as int]).update(
            j as int,
            old(elems)@[i as int],
        ),
{
    let a = elems[i];
    let b = elems[j];
    elems[i] = b;
    elems[j] = a;
}

/// Exchanging two positions inside `[s, e)` leaves the multiset of that
/// subrange (and everything outside it) unchanged.
pub proof fn lemma_swap_range_multiset<P>(
    pre: Seq<Element<P>>,
    post: Seq<Element<P>>,
    s: int,
    e: int,
    i: int,
    j: int,
)
    requires
        0 <= s <= i < e <= pre.len(),
        s <= j < e,
        post == pre.update(i, pre[j]).update(j, pre[i]),
    ensures
        post.len() == pre.len(),
        post.subrange(s, e).to_multiset() == pre.subrange(s, e).to_multiset(),
        forall|k: int| 0 <= k < pre.len() && !(s <= k < e) ==> post[k] == pre[k],
{
    broadcast use vstd::seq_lib::group_to_multiset_ensures;
    broadcast use vstd::multiset::group_multiset_axioms;

    let a = pre.subrange(s, e);
    let b = post.subrange(s, e);
    let ai = a[i - s];
    let aj = a[j - s];
    let mid = a.update(i - s, aj);
    assert(b =~= mid.update(j - s, ai));
    assert(mid[j - s] == aj);
    assert(a.contains(ai));
    assert(a.contains(aj));
    assert(mid.to_multiset() == a.to_multiset().insert(aj).remove(ai));
    assert(b.to_multiset() == mid.to_multiset().insert(ai).remove(aj));
    assert(b.to_multiset() =~= a.to_multiset());
}

/// In-place two-pointer partition of `elems[s..e)` about `split` on `axis`:
/// a left cursor advances past elements whose centroid is below the split
/// coordinate, every other element is swapped to the back. On return,
/// `elems[s..mid)` holds exactly the elements below the split and
/// `elems[mid..e)` those at or above it; the subrange is a permutation of
/// what it was and nothing outside it moves.
fn partition<P: Copy>(
    elems: &mut Vec<Element<P>>,
    s: usize,
    e: usize,
    axis: Axis,
    split: i64,
) -> (mid: usize)
    requires
        s < e <= old(elems).len(),
    ensures
        s <= mid <= e,
        final(elems)@.len() == old(elems)@.len(),
        forall|k: int|
            0 <= k < final(elems)@.len() && !(s <= k < e) ==> final(elems)@[k] == old(elems)@[k],
        final(elems)@.subrange(s as int, e as int).to_multiset() == old(elems)@.subrange(
            s as int,
            e as int,
        ).to_multiset(),
        all_below(final(elems)@, s as int, mid as int, axis, split as int),
        all_at_or_above(final(elems)@, mid as int, e as int, axis, split as int),
{
    let ghost orig = elems@;
    let mut i: usize = s;
    let mut jj: usize = e;
    while i < jj
        invariant
            s <= i <= jj <= e <= elems@.len(),
            elems@.len() == orig.len(),
            forall|k: int| 0 <= k < elems@.len() && !(s <= k < e) ==> elems@[k] == orig[k],
            elems@.subrange(s as int, e as int).to_multiset() == orig.subrange(
                s as int,
                e as int,
            ).to_multiset(),
            all_below(elems@, s as int, i as int, axis, split as int),
            all_at_or_above(elems@, jj as int, e as int, axis, split as int),
        decreases jj - i,
    {
        let c = match axis {
            Axis::X => elems[i].cx,
            Axis::Y => elems[i].cy,
            Axis::Z => elems[i].cz,
        };
        if c < split {
            i = i + 1;
        } else {
            let ghost pre = elems@;
            swap_elems(elems, i, jj - 1);
            proof {
                lemma_swap_range_multiset(pre, elems@, s as int, e as int, i as int, jj - 1);
            }
            jj = jj - 1;
        }
    }
    i
}

/// `x` occurs somewhere in `s2[s..e)`.
pub open spec fn appears<P>(x: Element<P>, s2: Seq<Element<P>>, s: int, e: int) -> bool {
    exists|k2: int| s <= k2 < e && s2[k2] == x
}

/// Both-ways containment between two orders of the subrange `[s, e)`:
/// each element of the one sat somewhere in the other. Pointwise facts
/// about the range travel across this relation.
pub open spec fn range_perm<P>(pre: Seq<Element<P>>, post: Seq<Element<P>>, s: int, e: int) -> bool {
    &&& forall|k: int| s <= k < e ==> #[trigger] appears(post[k], pre, s, e)
    &&& forall|k: int| s <= k < e ==> #[trigger] appears(pre[k], post, s, e)
}

/// A permutation of a subrange (stated as multiset equality) is a
/// both-ways containment.
pub proof fn lemma_perm_containment<P>(pre: Seq<Element<P>>, post: Seq<Element<P>>, s: int, e: int)
    requires
        0 <= s <= e <= pre.len(),
        pre.len() == post.len(),
        post.subrange(s, e).to_multiset() == pre.subrange(s, e).to_multiset(),
    ensures
        range_perm(pre, post, s, e),
{
    broadcast use vstd::seq_lib::group_to_multiset_ensures;
    broadcast use vstd::multiset::group_multiset_axioms;

    let a = pre.subrange(s, e);
    let b = post.subrange(s, e);
    assert forall|k: int| s <= k < e implies #[trigger] appears(post[k], pre, s, e) by {
        assert(b[k - s] == post[k]);
        assert(b.contains(post[k]));
        assert(a.to_multiset().count(post[k]) > 0);
        assert(a.contains(post[k]));
        let k2 = choose|k2: int| 0 <= k2 < a.len() && a[k2] == post[k];
        assert(pre[k2 + s] == post[k]);
    }
    assert forall|k: int| s <= k < e implies #[trigger] appears(pre[k], post, s, e) by {
        assert(a[k - s] == pre[k]);
        assert(a.contains(pre[k]));
        assert(b.to_multiset().count(pre[k]) > 0);
        assert(b.contains(pre[k]));
        let k2 = choose|k2: int| 0 <= k2 < b.len() && b[k2] == pre[k];
        assert(post[k2 + s] == pre[k]);
    }
}

/// A range bound stays a range bound when the range is permuted.
pub proof fn lemma_range_bound_perm<P>(
    b: AABB,
    pre: Seq<Element<P>>,
    post: Seq<Element<P>>,
    s: int,
    e: int,
)
    requires
        is_range_bound(b, pre, s, e),
        range_perm(pre, post, s, e),
    ensures
        is_range_bound(b, post, s, e),
{
    assert forall|k: int| s <= k < e implies b.covers((#[trigger] post[k]).bounds) by {
        assert(appears(post[k], pre, s, e));
        let k2 = choose|k2: int| s <= k2 < e && pre[k2] == post[k];
        assert(b.covers(pre[k2].bounds));
    }
    assert(tight_range(b, post, s, e)) by {
        let k1 = choose|k: int| s <= k < e && (#[trigger] pre[k]).bounds.lb.x == b.lb.x;
        assert(appears(pre[k1], post, s, e));
        let j1 = choose|j: int| s <= j < e && post[j] == pre[k1];
        assert(post[j1].bounds.lb.x == b.lb.x);
        let k2 = choose|k: int| s <= k < e && (#[trigger] pre[k]).bounds.lb.y == b.lb.y;
        assert(appears(pre[k2], post, s, e));
        let j2 = choose|j: int| s <= j < e && post[j] == pre[k2];
        assert(post[j2].bounds.lb.y == b.lb.y);
        let k3 = choose|k: int| s <= k < e && (#[trigger] pre[k]).bounds.lb.z == b.lb.z;
        assert(appears(pre[k3], post, s, e));
        let j3 = choose|j: int| s <= j < e && post[j] == pre[k3];
        assert(post[j3].bounds.lb.z == b.lb.z);
        let k4 = choose|k: int| s <= k < e && (#[trigger] pre[k]).bounds.ub.x == b.ub.x;
        assert(appears(pre[k4], post, s, e));
        let j4 = choose|j: int| s <= j < e && post[j] == pre[k4];
        assert(post[j4].bounds.ub.x == b.ub.x);
        let k5 = choose|k: int| s <= k < e && (#[trigger] pre[k]).bounds.ub.y == b.ub.y;
        assert(appears(pre[k5], post, s, e));
        let j5 = choose|j: int| s <= j < e && post[j] == pre[k5];
        assert(post[j5].bounds.ub.y == b.ub.y);
        let k6 = choose|k: int| s <= k < e && (#[trigger] pre[k]).bounds.ub.z == b.ub.z;
        assert(appears(pre[k6], post, s, e));
        let j6 = choose|j: int| s <= j < e && post[j] == pre[k6];
        assert(post[j6].bounds.ub.z == b.ub.z);
    }
}

/// The union of the bounds of two adjacent ranges bounds their
/// concatenation.
pub proof fn lemma_range_bound_union<P>(
    b1: AABB,
    b2: AABB,
    elems: Seq<Element<P>>,
    s: int,
    m: int,
    e: int,
)
    requires
        is_range_bound(b1, elems, s, m),
        is_range_bound(b2, elems, m, e),
        s < m < e,
    ensures
        is_range_bound(b1.spec_union(b2), elems, s, e),
{
    let u = b1.spec_union(b2);
    assert forall|k: int| s <= k < e implies u.covers((#[trigger] elems[k]).bounds) by {
        if k < m {
            assert(b1.covers(elems[k].bounds));
        } else {
            assert(b2.covers(elems[k].bounds));
        }
    }
    assert(tight_range(u, elems, s, e)) by {
        if b1.lb.x <= b2.lb.x {
            let k = choose|k: int| s <= k < m && (#[trigger] elems[k]).bounds.lb.x == b1.lb.x;
            assert(elems[k].bounds.lb.x == u.lb.x);
        } else {
            let k = choose|k: int| m <= k < e && (#[trigger] elems[k]).bounds.lb.x == b2.lb.x;
            assert(elems[k].bounds.lb.x == u.lb.x);
        }
        if b1.lb.y <= b2.lb.y {
            let k = choose|k: int| s <= k < m && (#[trigger] elems[k]).bounds.lb.y == b1.lb.y;
            assert(elems[k].bounds.lb.y == u.lb.y);
        } else {
            let k = choose|k: int| m <= k < e && (#[trigger] elems[k]).bounds.lb.y == b2.lb.y;
            assert(elems[k].bounds.lb.y == u.lb.y);
        }
        if b1.lb.z <= b2.lb.z {
            let k = choose|k: int| s <= k < m && (#[trigger] elems[k]).bounds.lb.z == b1.lb.z;
            assert(elems[k].bounds.lb.z == u.lb.z);
        } else {
            let k = choose|k: int| m <= k < e && (#[trigger] elems[k]).bounds.lb.z == b2.lb.z;
            assert(elems[k].bounds.lb.z == u.lb.z);
        }
        if b1.ub.x >= b2.ub.x {
            let k = choose|k: int| s <= k < m && (#[trigger] elems[k]).bounds.ub.x == b1.ub.x;
            assert(elems[k].bounds.ub.x == u.ub.x);
        } else {
            let k = choose|k: int| m <= k < e && (#[trigger] elems[k]).bounds.ub.x == b2.ub.x;
            assert(elems[k].bounds.ub.x == u.ub.x);
        }
        if b1.ub.y >= b2.ub.y {
            let k = choose|k: int| s <= k < m && (#[trigger] elems[k]).bounds.ub.y == b1.ub.y;
            assert(elems[k].bounds.ub.y == u.ub.y);
        } else {
            let k = choose|k: int| m <= k < e && (#[trigger] elems[k]).bounds.ub.y == b2.ub.y;
            assert(elems[k].bounds.ub.y == u.ub.y);
        }
        if b1.ub.z >= b2.ub.z {
            let k = choose|k: int| s <= k < m && (#[trigger] elems[k]).bounds.ub.z == b1.ub.z;
            assert(elems[k].bounds.ub.z == u.ub.z);
        } else {
            let k = choose|k: int| m <= k < e && (#[trigger] elems[k]).bounds.ub.z == b2.ub.z;
            assert(elems[k].bounds.ub.z == u.ub.z);
        }
    }
}

/// Which side of a split plane a range's centroids fall on is preserved
/// when the range is permuted.
pub proof fn lemma_sided_perm<P>(
    pre: Seq<Element<P>>,
    post: Seq<Element<P>>,
    s: int,
    e: int,
    axis: Axis,
    split: int,
)
    requires
        range_perm(pre, post, s, e),
    ensures
        all_below(pre, s, e, axis, split) ==> all_below(post, s, e, axis, split),
        all_at_or_above(pre, s, e, axis, split) ==> all_at_or_above(post, s, e, axis, split),
{
    if all_below(pre, s, e, axis, split) {
        assert forall|k: int| s <= k < e implies (#[trigger] post[k]).cent_on(axis) < split by {
            assert(appears(post[k], pre, s, e));
            let k2 = choose|k2: int| s <= k2 < e && pre[k2] == post[k];
            assert(pre[k2].cent_on(axis) < split);
        }
    }
    if all_at_or_above(pre, s, e, axis, split) {
        assert forall|k: int| s <= k < e implies (#[trigger] post[k]).cent_on(axis) >= split by {
            assert(appears(post[k], pre, s, e));
            let k2 = choose|k2: int| s <= k2 < e && pre[k2] == post[k];
            assert(pre[k2].cent_on(axis) >= split);
        }
    }
}

/// Structural well-formedness of the node at `i`, tying it to the element
/// order: every node's bounds are exactly the union of its members'
/// bounds; a leaf's size respects the threshold unless its midpoint split
/// is degenerate; an internal node was split only because its range
/// exceeded the threshold, its children were appended after it,
/// their ranges partition its own at the midpoint split of its bounds —
/// every left-side centroid strictly below the split coordinate, every
/// right-side centroid at or above it — and its bounds are the union of
/// theirs.
pub open spec fn node_ok<P>(
    nodes: Seq<BVHNode>,
    elems: Seq<Element<P>>,
    i: int,
    threshold: int,
) -> bool {
    let n = nodes[i];
    &&& 0 <= i < nodes.len()
    &&& 0 <= n.start < n.end <= elems.len()
    &&& n.bounds.wf()
    &&& is_range_bound(n.bounds, elems, n.start as int, n.end as int)
    &&& if n.is_leaf {
        &&& n.left == 0
        &&& n.right == 0
        &&& (n.end - n.start <= threshold || split_degenerate(
            elems,
            n.start as int,
            n.end as int,
            n.bounds,
        ))
    } else {
        &&& i < n.left < nodes.len()
        &&& i < n.right < nodes.len()
        &&& nodes[n.left as int].start == n.start
        &&& nodes[n.left as int].end == nodes[n.right as int].start
        &&& nodes[n.right as int].end == n.end
        &&& n.end - n.start > threshold
        &&& n.start < nodes[n.left as int].end < n.end
        &&& n.bounds == nodes[n.left as int].bounds.spec_union(nodes[n.right as int].bounds)
        &&& all_below(
            elems,
            n.start as int,
            nodes[n.left as int].end as int,
            spec_split_axis(n.bounds),
            spec_split_coord(n.bounds),
        )
        &&& all_at_or_above(
            elems,
            nodes[n.right as int].start as int,
            n.end as int,
            spec_split_axis(n.bounds),
            spec_split_coord(n.bounds),
        )
    }
}

/// Every node of the arena is well-formed with respect to the element order.
pub open spec fn tree_ok<P>(nodes: Seq<BVHNode>, elems: Seq<Element<P>>, threshold: int) -> bool {
    &&& nodes.len() >= 1
    &&& forall|i: int| 0 <= i < nodes.len() ==> #[trigger] node_ok(nodes, elems, i, threshold)
}

/// `j` lies in the subtree rooted at `i` (following `left`/`right` links,
/// which by construction always point past their parent).
pub open spec fn in_subtree(nodes: Seq<BVHNode>, i: int, j: int) -> bool
    decreases nodes.len() - i,
{
    if !(0 <= i < nodes.len()) {
        false
    } else if i == j {
        true
    } else if nodes[i].is_leaf {
        false
    } else {
        let l = nodes[i].left as int;
        let r = nodes[i].right as int;
        if i < l < nodes.len() && i < r < nodes.len() {
            in_subtree(nodes, l, j) || in_subtree(nodes, r, j)
        } else {
            false
        }
    }
}

/// The number of nodes in the subtree rooted at `i` (1 for a leaf).
pub open spec fn tsize(nodes: Seq<BVHNode>, i: int) -> int
    decreases nodes.len() - i,
{
    if !(0 <= i < nodes.len()) {
        1
    } else if nodes[i].is_leaf {
        1
    } else {
        let l = nodes[i].left as int;
        let r = nodes[i].right as int;
        if i < l < nodes.len() && i < r < nodes.len() {
            1 + tsize(nodes, l) + tsize(nodes, r)
        } else {
            1
        }
    }
}

/// The layout the builder produces: an internal node's two children sit at
/// the start of its descendant region, which begins at `lo` and holds
/// exactly the `tsize(nodes, i) - 1` descendants; the left child's
/// descendants precede the right child's. This pins every subtree into a
/// region of the arena, keeping sibling subtrees disjoint.
pub open spec fn region_ok(nodes: Seq<BVHNode>, i: int, lo: int) -> bool
    decreases nodes.len() - i,
{
    if !(0 <= i < nodes.len()) {
        false
    } else if nodes[i].is_leaf {
        true
    } else {
        let l = nodes[i].left as int;
        let r = nodes[i].right as int;
        &&& i < l
        &&& i < r
        &&& l < nodes.len()
        &&& r < nodes.len()
        &&& l == lo
        &&& r == lo + 1
        &&& 0 <= lo
        &&& lo + tsize(nodes, i) - 1 <= nodes.len()
        &&& region_ok(nodes, l, lo + 2)
        &&& region_ok(nodes, r, lo + 1 + tsize(nodes, l))
    }
}

/// Subtree sizes are at least 1, and the two children of a well-laid-out
/// internal node fit inside its region.
pub proof fn lemma_tsize_pos(nodes: Seq<BVHNode>, i: int)
    ensures
        tsize(nodes, i) >= 1,
    decreases nodes.len() - i,
{
    if 0 <= i < nodes.len() && !nodes[i].is_leaf {
        let l = nodes[i].left as int;
        let r = nodes[i].right as int;
        if i < l < nodes.len() && i < r < nodes.len() {
            lemma_tsize_pos(nodes, l);
            lemma_tsize_pos(nodes, r);
        }
    }
}

/// A subtree laid out with descendants at `[lo, lo + tsize - 1)` holds no
/// index outside that region and itself.
pub proof fn lemma_region_contains(nodes: Seq<BVHNode>, i: int, lo: int, j: int)
    requires
        region_ok(nodes, i, lo),
        in_subtree(nodes, i, j),
    ensures
        j == i || lo <= j < lo + tsize(nodes, i) - 1,
    decreases nodes.len() - i,
{
    if i == j || nodes[i].is_leaf {
    } else {
        let l = nodes[i].left as int;
        let r = nodes[i].right as int;
        lemma_tsize_pos(nodes, l);
        lemma_tsize_pos(nodes, r);
        if in_subtree(nodes, l, j) {
            lemma_region_contains(nodes, l, lo + 2, j);
        } else {
            lemma_region_contains(nodes, r, lo + 1 + tsize(nodes, l), j);
        }
    }
}

/// Layout and subtree size survive any change that keeps the subtree's own
/// nodes intact (the arena may also grow at the end).
pub proof fn lemma_region_frame(pre: Seq<BVHNode>, post: Seq<BVHNode>, i: int, lo: int)
    requires
        region_ok(pre, i, lo),
        post.len() >= pre.len(),
        post[i] == pre[i],
        forall|k: int| lo <= k < lo + tsize(pre, i) - 1 ==> post[k] == pre[k],
    ensures
        region_ok(post, i, lo),
        tsize(post, i) == tsize(pre, i),
    decreases pre.len() - i,
{
    if pre[i].is_leaf {
    } else {
        let l = pre[i].left as int;
        let r = pre[i].right as int;
        lemma_tsize_pos(pre, l);
        lemma_tsize_pos(pre, r);
        lemma_region_frame(pre, post, l, lo + 2);
        lemma_region_frame(pre, post, r, lo + 1 + tsize(pre, l));
    }
}

/// Subtree membership survives any change that keeps the subtree's own
/// nodes intact.
pub proof fn lemma_in_subtree_frame(pre: Seq<BVHNode>, post: Seq<BVHNode>, i: int, lo: int, j: int)
    requires
        region_ok(pre, i, lo),
        post.len() >= pre.len(),
        post[i] == pre[i],
        forall|k: int| lo <= k < lo + tsize(pre, i) - 1 ==> post[k] == pre[k],
        in_subtree(pre, i, j),
    ensures
        in_subtree(post, i, j),
    decreases pre.len() - i,
{
    if i == j || pre[i].is_leaf {
    } else {
        let l = pre[i].left as int;
        let r = pre[i].right as int;
        lemma_tsize_pos(pre, l);
        lemma_tsize_pos(pre, r);
        if in_subtree(pre, l, j) {
            lemma_in_subtree_frame(pre, post, l, lo + 2, j);
        } else {
            lemma_in_subtree_frame(pre, post, r, lo + 1 + tsize(pre, l), j);
        }
    }
}

/// `node_ok` ignores the element order outside the node's own range.
pub proof fn lemma_node_ok_elems_frame<P>(
    nodes: Seq<BVHNode>,
    pre: Seq<Element<P>>,
    post: Seq<Element<P>>,
    i: int,
    threshold: int,
)
    requires
        node_ok(nodes, pre, i, threshold),
        post.len() == pre.len(),
        forall|k: int| nodes[i].start <= k < nodes[i].end ==> post[k] == pre[k],
    ensures
        node_ok(nodes, post, i, threshold),
{
    let n = nodes[i];
    let s = n.start as int;
    let e = n.end as int;
    let axis = spec_split_axis(n.bounds);
    let split = spec_split_coord(n.bounds);
    lemma_range_bound_frame(n.bounds, pre, post, s, e);
    if n.is_leaf {
        if e - s > threshold {
            if all_below(pre, s, e, axis, split) {
                assert forall|k: int| s <= k < e implies (#[trigger] post[k]).cent_on(axis)
                    < split by {
                    assert(pre[k].cent_on(axis) < split);
                }
            } else {
                assert forall|k: int| s <= k < e implies (#[trigger] post[k]).cent_on(axis)
                    >= split by {
                    assert(pre[k].cent_on(axis) >= split);
                }
            }
        }
    } else {
        let m = nodes[n.left as int].end as int;
        assert(all_below(pre, s, m, axis, split));
        assert(all_at_or_above(pre, m, e, axis, split));
        assert forall|k: int| s <= k < m implies (#[trigger] post[k]).cent_on(axis) < split by {
            assert(s <= k < e);
            assert(post[k] == pre[k]);
            assert(pre[k].cent_on(axis) < split);
        }
        assert forall|k: int| m <= k < e implies (#[trigger] post[k]).cent_on(axis) >= split by {
            assert(post[k] == pre[k]);
            assert(pre[k].cent_on(axis) >= split);
        }
    }
}

/// `node_ok` only reads the node itself and its two children, so any change
/// elsewhere in the arena preserves it.
pub proof fn lemma_node_ok_nodes_frame<P>(
    pre: Seq<BVHNode>,
    post: Seq<BVHNode>,
    elems: Seq<Element<P>>,
    i: int,
    threshold: int,
)
    requires
        node_ok(pre, elems, i, threshold),
        post.len() >= pre.len(),
        post[i] == pre[i],
        !pre[i].is_leaf ==> post[pre[i].left as int] == pre[pre[i].left as int] && post[pre[i].right
            as int] == pre[pre[i].right as int],
    ensures
        node_ok(post, elems, i, threshold),
{
}

/// The union of the element bounds over `elems[s..e)`, computed by a single
/// left-to-right pass.
fn leaf_bounds<P: Copy>(elems: &Vec<Element<P>>, s: usize, e: usize) -> (r: AABB)
    requires
        s < e <= elems.len(),
        forall|k: int| s <= k < e ==> (#[trigger] elems@[k]).bounds.wf(),
    ensures
        r == range_bounds(elems@, s as int, e as int),
        is_range_bound(r, elems@, s as int, e as int),
        r.wf(),
{
    let mut acc = elems[s].bounds;
    let mut k: usize = s + 1;
    while k < e
        invariant
            s < k <= e <= elems.len(),
            acc == range_bounds(elems@, s as int, k as int),
        decreases e - k,
    {
        acc = acc.union(&elems[k].bounds);
        k = k + 1;
    }
    proof {
        lemma_range_bounds_is_bound(elems@, s as int, e as int);
    }
    acc
}


/// Lifting a permutation of an inner subrange to an enclosing one: if
/// `[s2, e2)` was permuted and the rest of `[s, e)` untouched, then
/// `[s, e)` as a whole was permuted.
pub proof fn lemma_submultiset_lift<P>(
    pre: Seq<Element<P>>,
    post: Seq<Element<P>>,
    s: int,
    e: int,
    s2: int,
    e2: int,
)
    requires
        0 <= s <= s2 <= e2 <= e <= pre.len(),
        pre.len() == post.len(),
        post.subrange(s2, e2).to_multiset() == pre.subrange(s2, e2).to_multiset(),
        forall|k: int| s <= k < e && !(s2 <= k < e2) ==> post[k] == pre[k],
    ensures
        post.subrange(s, e).to_multiset() == pre.subrange(s, e).to_multiset(),
{
    broadcast use vstd::multiset::group_multiset_axioms;

    let pa = pre.subrange(s, s2);
    let pm = pre.subrange(s2, e2);
    let pb = pre.subrange(e2, e);
    let qa = post.subrange(s, s2);
    let qm = post.subrange(s2, e2);
    let qb = post.subrange(e2, e);
    assert(pre.subrange(s, e) =~= pa + pm + pb);
    assert(post.subrange(s, e) =~= qa + qm + qb);
    assert(qa =~= pa);
    assert(qb =~= pb);
    vstd::seq_lib::lemma_multiset_commutative(pa + pm, pb);
    vstd::seq_lib::lemma_multiset_commutative(pa, pm);
    vstd::seq_lib::lemma_multiset_commutative(qa + qm, qb);
    vstd::seq_lib::lemma_multiset_commutative(qa, qm);
    assert(post.subrange(s, e).to_multiset() =~= pre.subrange(s, e).to_multiset());
}

/// Well-formedness of all element bounds survives a permutation of a
/// subrange.
pub proof fn lemma_elems_wf_perm<P>(pre: Seq<Element<P>>, post: Seq<Element<P>>, s: int, e: int)
    requires
        elems_wf(pre),
        0 <= s <= e <= pre.len(),
        pre.len() == post.len(),
        forall|k: int| 0 <= k < post.len() && !(s <= k < e) ==> post[k] == pre[k],
        range_perm(pre, post, s, e),
    ensures
        elems_wf(post),
{
    assert forall|k: int| 0 <= k < post.len() implies (#[trigger] post[k]).bounds.wf() by {
        if s <= k < e {
            assert(appears(post[k], pre, s, e));
            let k2 = choose|k2: int| s <= k2 < e && pre[k2] == post[k];
            assert(pre[k2].bounds.wf());
        } else {
            assert(post[k] == pre[k]);
            assert(pre[k].bounds.wf());
        }
    }
}

/// The split plane of a box: the axis of greatest extent (ties broken in
/// axis order with strict comparisons) and the midpoint of the box's extent
/// along it.
fn split_plane(b: &AABB) -> (r: (Axis, i64))
    requires
        b.wf(),
    ensures
        r.0 == spec_split_axis(*b),
        r.1 as int == spec_split_coord(*b),
{
    let ex: i64 = b.ub.x as i64 - b.lb.x as i64;
    let ey: i64 = b.ub.y as i64 - b.lb.y as i64;
    let ez: i64 = b.ub.z as i64 - b.lb.z as i64;
    let mut axis = Axis::X;
    let mut ext = ex;
    let mut lo: i64 = b.lb.x as i64;
    if ey > ext {
        axis = Axis::Y;
        ext = ey;
        lo = b.lb.y as i64;
    }
    if ez > ext {
        axis = Axis::Z;
        ext = ez;
        lo = b.lb.z as i64;
    }
    let half: i64 = ((ext as u64) / 2) as i64;
    (axis, lo + half)
}

/// Recursive midpoint split of the leaf at `idx`, covering `elems[s..e)`.
///
/// If the leaf holds no more than `threshold` elements it stays terminal.
/// Otherwise the element range is partitioned in place about the midpoint
/// of the leaf's longest axis; a partition that leaves one side empty
/// aborts the split (the degenerate-split guard), and any other partition
/// appends two child leaves covering the two sub-ranges, recurses into
/// each, and rewrites the node as an internal node whose bounds are the
/// union of its children's.
///
/// On return the subtree rooted at `idx` occupies exactly the appended
/// region of the arena and every node of it is well-formed with respect to
/// the final element order; the element subrange holds the same elements
/// as before, reordered.
#[verifier::rlimit(50)]
fn subdivide_range<P: Copy>(
    nodes: &mut Vec<BVHNode>,
    elems: &mut Vec<Element<P>>,
    idx: usize,
    s: usize,
    e: usize,
    threshold: usize,
)
    requires
        threshold >= 1,
        idx < old(nodes)@.len(),
        old(nodes)@[idx as int].is_leaf,
        old(nodes)@[idx as int].left == 0,
        old(nodes)@[idx as int].right == 0,
        old(nodes)@[idx as int].start == s,
        old(nodes)@[idx as int].end == e,
        s < e <= old(elems)@.len(),
        elems_wf(old(elems)@),
        old(nodes)@[idx as int].bounds.wf(),
        is_range_bound(old(nodes)@[idx as int].bounds, old(elems)@, s as int, e as int),
    ensures
        final(elems)@.len() == old(elems)@.len(),
        forall|k: int|
            0 <= k < final(elems)@.len() && !(s <= k < e) ==> final(elems)@[k] == old(elems)@[k],
        final(elems)@.subrange(s as int, e as int).to_multiset() == old(elems)@.subrange(
            s as int,
            e as int,
        ).to_multiset(),
        elems_wf(final(elems)@),
        final(nodes)@.len() >= old(nodes)@.len(),
        forall|j: int|
            0 <= j < old(nodes)@.len() && j != idx ==> final(nodes)@[j] == old(nodes)@[j],
        final(nodes)@[idx as int].start == s,
        final(nodes)@[idx as int].end == e,
        final(nodes)@[idx as int].skip == old(nodes)@[idx as int].skip,
        node_ok(final(nodes)@, final(elems)@, idx as int, threshold as int),
        forall|j: int|
            old(nodes)@.len() <= j < final(nodes)@.len() ==> node_ok(
                final(nodes)@,
                final(elems)@,
                j,
                threshold as int,
            ),
        forall|j: int|
            old(nodes)@.len() <= j < final(nodes)@.len() ==> s <= (#[trigger] final(nodes)@[j]).start
                && final(nodes)@[j].end <= e,
        forall|j: int|
            old(nodes)@.len() <= j < final(nodes)@.len() && !(#[trigger] final(nodes)@[j]).is_leaf
                ==> old(nodes)@.len() <= final(nodes)@[j].left && old(nodes)@.len() <= final(nodes)@[j].right,
        !final(nodes)@[idx as int].is_leaf ==> old(nodes)@.len() <= final(nodes)@[idx as int].left
            && old(nodes)@.len() <= final(nodes)@[idx as int].right,
        region_ok(final(nodes)@, idx as int, old(nodes)@.len() as int),
        final(nodes)@.len() == old(nodes)@.len() + tsize(final(nodes)@, idx as int) - 1,
        forall|j: int|
            old(nodes)@.len() <= j < final(nodes)@.len() ==> in_subtree(
                final(nodes)@,
                idx as int,
                j,
            ),
    decreases e - s,
{
    let ghost n_orig = nodes@;
    let ghost e_orig = elems@;
    let ghost n0 = nodes@.len() as int;
    let node = nodes[idx];
    if e - s <= threshold {
        return ;
    }
    let b = node.bounds;
    let (axis, split) = split_plane(&b);
    let mid = partition(elems, s, e, axis, split);
    let ghost e1 = elems@;
    proof {
        lemma_perm_containment(e_orig, e1, s as int, e as int);
        lemma_range_bound_perm(b, e_orig, e1, s as int, e as int);
        lemma_elems_wf_perm(e_orig, e1, s as int, e as int);
    }
    if mid == s || mid == e {
        // Degenerate split: every centroid fell on one side of the
        // midpoint; keep the node as a leaf.
        return ;
    }
    let lb = leaf_bounds(elems, s, mid);
    let rb = leaf_bounds(elems, mid, e);
    let l = nodes.len();
    nodes.push(
        BVHNode { bounds: lb, left: 0, right: 0, skip: 0, is_leaf: true, start: s, end: mid },
    );
    let r = nodes.len();
    nodes.push(
        BVHNode { bounds: rb, left: 0, right: 0, skip: 0, is_leaf: true, start: mid, end: e },
    );
    let ghost n1 = nodes@;
    subdivide_range(nodes, elems, l, s, mid, threshold);
    let ghost n2 = nodes@;
    let ghost e2 = elems@;
    let ghost m_split = nodes@.len() as int;
    proof {
        // The right child was appended after the left one and is untouched
        // by the left recursion; its bounds still describe `[mid, e)`.
        assert(n2[r as int] == n1[r as int]);
        lemma_range_bound_frame(rb, e1, e2, mid as int, e as int);
    }
    subdivide_range(nodes, elems, r, mid, e, threshold);
    let ghost n3 = nodes@;
    let ghost e3 = elems@;
    let lcb = nodes[l].bounds;
    let rcb = nodes[r].bounds;
    let nb = lcb.union(&rcb);
    nodes[idx] = BVHNode {
        bounds: nb,
        left: l,
        right: r,
        skip: node.skip,
        is_leaf: false,
        start: s,
        end: e,
    };
    proof {
        let nf = nodes@;
        let ef = elems@;
        let th = threshold as int;
        let li = l as int;
        let ri = r as int;
        let ii = idx as int;
        let si = s as int;
        let mi = mid as int;
        let ei = e as int;
        let flen = nf.len() as int;

        // Element bookkeeping: the two recursions each permuted their half.
        assert(ef.len() == e_orig.len());
        lemma_submultiset_lift(e1, e2, si, ei, si, mi);
        lemma_submultiset_lift(e2, e3, si, ei, mi, ei);
        assert(ef.subrange(si, ei).to_multiset() == e_orig.subrange(si, ei).to_multiset());

        // Node frames: the left subtree's nodes are untouched by the right
        // recursion and by the final rewrite of `idx`.
        assert(nf[li] == n2[li]);
        assert forall|k: int| n0 + 2 <= k < n0 + 2 + tsize(n2, li) - 1 implies nf[k] == n2[k] by {
            assert(m_split == n0 + 2 + tsize(n2, li) - 1);
        }
        lemma_region_frame(n2, nf, li, n0 + 2);
        assert(region_ok(nf, li, n0 + 2) && tsize(nf, li) == tsize(n2, li));
        // The right subtree's nodes are untouched by the rewrite of `idx`.
        assert(nf[ri] == n3[ri]);
        assert forall|k: int| m_split <= k < m_split + tsize(n3, ri) - 1 implies nf[k]
            == n3[k] by {}
        lemma_region_frame(n3, nf, ri, m_split);
        assert(region_ok(nf, ri, m_split) && tsize(nf, ri) == tsize(n3, ri));

        // Region layout and arena length.
        assert(flen == n0 + tsize(nf, li) + tsize(nf, ri));
        assert(tsize(nf, ii) == 1 + tsize(nf, li) + tsize(nf, ri));
        assert(m_split == n0 + 1 + tsize(nf, li));
        assert(region_ok(nf, ii, n0));

        // The rewritten node is a well-formed internal node.
        assert(nf[li].start == s && nf[li].end == mid);
        assert(nf[ri].start == mid && nf[ri].end == e);

        // Nodes of the left subtree stay well-formed: their element ranges
        // lie in [s, mid), untouched by the right recursion, and their own
        // nodes and children lie in {l} ∪ [n0+2, m_split).
        assert forall|j: int| n0 + 2 <= j < m_split implies node_ok(nf, ef, j, th) by {
            assert(node_ok(n2, e2, j, th));
            assert(n2[j].start as int >= si && n2[j].end as int <= mi);
            lemma_node_ok_elems_frame(n2, e2, ef, j, th);
            assert(nf[j] == n2[j]);
            if !n2[j].is_leaf {
                assert(n0 + 2 <= n2[j].left < m_split);
                assert(n0 + 2 <= n2[j].right < m_split);
            }
            lemma_node_ok_nodes_frame(n2, nf, ef, j, th);
        }
        assert(node_ok(nf, ef, li, th)) by {
            assert(node_ok(n2, e2, li, th));
            lemma_node_ok_elems_frame(n2, e2, ef, li, th);
            if !n2[li].is_leaf {
                assert(n0 + 2 <= n2[li].left < m_split);
                assert(n0 + 2 <= n2[li].right < m_split);
            }
            lemma_node_ok_nodes_frame(n2, nf, ef, li, th);
        }
        // Nodes of the right subtree: only the rewrite of `idx` happened
        // after them, and `idx` is outside their region.
        assert forall|j: int| m_split <= j < flen implies node_ok(nf, ef, j, th) by {
            assert(node_ok(n3, e3, j, th));
            assert(nf[j] == n3[j]);
            if !n3[j].is_leaf {
                assert(m_split <= n3[j].left);
                assert(m_split <= n3[j].right);
            }
            lemma_node_ok_nodes_frame(n3, nf, ef, j, th);
        }
        assert(node_ok(nf, ef, ri, th)) by {
            assert(node_ok(n3, e3, ri, th));
            if !n3[ri].is_leaf {
                assert(m_split <= n3[ri].left);
                assert(m_split <= n3[ri].right);
            }
            lemma_node_ok_nodes_frame(n3, nf, ef, ri, th);
        }

        // The rewritten node's bounds are exactly the bounds of its range
        // in the final element order: the same box its split plane was
        // computed from, so the two sides of the partition still sit on
        // their sides of that plane.
        assert(is_range_bound(nf[li].bounds, ef, si, mi));
        assert(is_range_bound(nf[ri].bounds, ef, mi, ei));
        lemma_range_bound_union(nf[li].bounds, nf[ri].bounds, ef, si, mi, ei);
        assert(ef.subrange(si, ei).to_multiset() == e1.subrange(si, ei).to_multiset());
        lemma_perm_containment(e1, ef, si, ei);
        lemma_range_bound_perm(b, e1, ef, si, ei);
        lemma_range_bound_unique(nf[ii].bounds, b, ef, si, ei);
        assert(nf[ii].bounds == b);
        let axis_s = spec_split_axis(b);
        let coord_s = spec_split_coord(b);
        assert(axis == axis_s && split as int == coord_s);
        assert(all_below(ef, si, mi, axis_s, coord_s)) by {
            assert(all_below(e1, si, mi, axis, split as int));
            lemma_perm_containment(e1, e2, si, mi);
            lemma_sided_perm(e1, e2, si, mi, axis, split as int);
            assert forall|k: int| si <= k < mi implies (#[trigger] ef[k]).cent_on(axis)
                < split as int by {
                assert(ef[k] == e2[k]);
                assert(e2[k].cent_on(axis) < split as int);
            }
        }
        assert(all_at_or_above(ef, mi, ei, axis_s, coord_s)) by {
            assert(all_at_or_above(e1, mi, ei, axis, split as int));
            assert(all_at_or_above(e2, mi, ei, axis, split as int)) by {
                assert forall|k: int| mi <= k < ei implies (#[trigger] e2[k]).cent_on(axis)
                    >= split as int by {
                    assert(e2[k] == e1[k]);
                    assert(e1[k].cent_on(axis) >= split as int);
                }
            }
            lemma_perm_containment(e2, e3, mi, ei);
            lemma_sided_perm(e2, e3, mi, ei, axis, split as int);
        }
        assert(node_ok(nf, ef, ii, th));

        // Every appended node is in the subtree of `idx`.
        assert forall|j: int| n0 <= j < flen implies in_subtree(nf, ii, j) by {
            if j == li || j == ri {
                assert(in_subtree(nf, li, li));
                assert(in_subtree(nf, ri, ri));
                assert(in_subtree(nf, ii, j));
            } else if j < m_split {
                assert(in_subtree(n2, li, j));
                lemma_in_subtree_frame(n2, nf, li, n0 + 2, j);
                assert(in_subtree(nf, li, j));
            } else {
                assert(in_subtree(n3, ri, j));
                lemma_in_subtree_frame(n3, nf, ri, m_split, j);
                assert(in_subtree(nf, ri, j));
            }
        }
    }
}


/// Equality of two nodes on everything but the `skip` field.
pub open spec fn eq_mod_skip(a: BVHNode, b: BVHNode) -> bool {
    &&& a.bounds == b.bounds
    &&& a.left == b.left
    &&& a.right == b.right
    &&& a.is_leaf == b.is_leaf
    &&& a.start == b.start
    &&& a.end == b.end
}

/// Correct skip links for the subtree at `i`, with `nxt` the index to jump
/// to once the whole subtree is to be skipped: the node's own skip is
/// `nxt`; a left child skips to its right sibling, a right child to its
/// parent's own skip target.
pub open spec fn skip_ok(nodes: Seq<BVHNode>, i: int, nxt: int) -> bool
    decreases nodes.len() - i,
{
    if !(0 <= i < nodes.len()) {
        false
    } else if nodes[i].is_leaf {
        nodes[i].skip as int == nxt
    } else {
        let l = nodes[i].left as int;
        let r = nodes[i].right as int;
        &&& nodes[i].skip as int == nxt
        &&& i < l < nodes.len()
        &&& i < r < nodes.len()
        &&& skip_ok(nodes, l, r)
        &&& skip_ok(nodes, r, nxt)
    }
}

/// Subtree size and layout only read the structural fields, never `skip`.
pub proof fn lemma_region_mod_skip(pre: Seq<BVHNode>, post: Seq<BVHNode>, i: int, lo: int)
    requires
        region_ok(pre, i, lo),
        post.len() == pre.len(),
        forall|k: int| 0 <= k < pre.len() ==> eq_mod_skip(#[trigger] post[k], pre[k]),
    ensures
        region_ok(post, i, lo),
        tsize(post, i) == tsize(pre, i),
    decreases pre.len() - i,
{
    assert(eq_mod_skip(post[i], pre[i]));
    if pre[i].is_leaf {
    } else {
        let l = pre[i].left as int;
        let r = pre[i].right as int;
        lemma_region_mod_skip(pre, post, l, lo + 2);
        lemma_region_mod_skip(pre, post, r, lo + 1 + tsize(pre, l));
    }
}

/// Subtree membership only reads the structural fields, never `skip`.
pub proof fn lemma_in_subtree_mod_skip(pre: Seq<BVHNode>, post: Seq<BVHNode>, i: int, j: int)
    requires
        post.len() == pre.len(),
        forall|k: int| 0 <= k < pre.len() ==> eq_mod_skip(#[trigger] post[k], pre[k]),
    ensures
        in_subtree(post, i, j) == in_subtree(pre, i, j),
    decreases pre.len() - i,
{
    if 0 <= i < pre.len() {
        assert(eq_mod_skip(post[i], pre[i]));
        if i != j && !pre[i].is_leaf {
            let l = pre[i].left as int;
            let r = pre[i].right as int;
            if i < l < pre.len() && i < r < pre.len() {
                lemma_in_subtree_mod_skip(pre, post, l, j);
                lemma_in_subtree_mod_skip(pre, post, r, j);
            }
        }
    }
}

/// `node_ok` never reads `skip`.
pub proof fn lemma_node_ok_mod_skip<P>(
    pre: Seq<BVHNode>,
    post: Seq<BVHNode>,
    elems: Seq<Element<P>>,
    i: int,
    threshold: int,
)
    requires
        node_ok(pre, elems, i, threshold),
        post.len() == pre.len(),
        forall|k: int| 0 <= k < pre.len() ==> eq_mod_skip(#[trigger] post[k], pre[k]),
    ensures
        node_ok(post, elems, i, threshold),
{
    assert(eq_mod_skip(post[i], pre[i]));
    if !pre[i].is_leaf {
        assert(eq_mod_skip(post[pre[i].left as int], pre[pre[i].left as int]));
        assert(eq_mod_skip(post[pre[i].right as int], pre[pre[i].right as int]));
    }
}

/// Skip links of a subtree survive any change outside that subtree.
pub proof fn lemma_skip_ok_frame(pre: Seq<BVHNode>, post: Seq<BVHNode>, i: int, nxt: int)
    requires
        skip_ok(pre, i, nxt),
        post.len() == pre.len(),
        forall|j: int| in_subtree(pre, i, j) ==> post[j] == pre[j],
    ensures
        skip_ok(post, i, nxt),
    decreases pre.len() - i,
{
    assert(in_subtree(pre, i, i));
    assert(post[i] == pre[i]);
    if !pre[i].is_leaf {
        let l = pre[i].left as int;
        let r = pre[i].right as int;
        assert forall|j: int| in_subtree(pre, l, j) implies post[j] == pre[j] by {
            assert(in_subtree(pre, i, j));
        }
        assert forall|j: int| in_subtree(pre, r, j) implies post[j] == pre[j] by {
            assert(in_subtree(pre, i, j));
        }
        lemma_skip_ok_frame(pre, post, l, r);
        lemma_skip_ok_frame(pre, post, r, nxt);
    }
}

/// Depth-first skip-link assignment over the subtree at `idx`: the node
/// itself skips to `next`; a left child's skip is its right sibling, a
/// right child inherits its parent's skip target.
pub fn generate_skips(nodes: &mut Vec<BVHNode>, idx: usize, next: usize, Ghost(lo): Ghost<int>)
    requires
        idx < old(nodes)@.len(),
        next <= old(nodes)@.len(),
        region_ok(old(nodes)@, idx as int, lo),
    ensures
        final(nodes)@.len() == old(nodes)@.len(),
        forall|j: int|
            0 <= j < final(nodes)@.len() ==> eq_mod_skip(#[trigger] final(nodes)@[j], old(nodes)@[j]),
        forall|j: int|
            0 <= j < final(nodes)@.len() && !in_subtree(old(nodes)@, idx as int, j)
                ==> final(nodes)@[j] == old(nodes)@[j],
        skip_ok(final(nodes)@, idx as int, next as int),
    decreases old(nodes)@.len() - idx,
{
    let ghost na = nodes@;
    let ghost ii = idx as int;
    let node = nodes[idx];
    nodes[idx] = BVHNode { skip: next, ..node };
    let ghost nb = nodes@;
    proof {
        assert forall|k: int| 0 <= k < na.len() implies eq_mod_skip(#[trigger] nb[k], na[k]) by {}
    }
    if !node.is_leaf {
        let l = node.left;
        let r = node.right;
        proof {
            lemma_region_mod_skip(na, nb, l as int, lo + 2);
            lemma_tsize_pos(na, l as int);
            lemma_tsize_pos(na, r as int);
        }
        generate_skips(nodes, l, r, Ghost(lo + 2));
        let ghost nc = nodes@;
        proof {
            assert forall|k: int| 0 <= k < na.len() implies eq_mod_skip(#[trigger] nc[k], na[k]) by {
                assert(eq_mod_skip(nc[k], nb[k]));
            }
            lemma_region_mod_skip(na, nc, r as int, lo + 1 + tsize(na, l as int));
        }
        generate_skips(nodes, r, next, Ghost(lo + 1 + tsize(na, l as int)));
        let ghost nd = nodes@;
        proof {
            assert forall|k: int| 0 <= k < na.len() implies eq_mod_skip(#[trigger] nd[k], na[k]) by {
                assert(eq_mod_skip(nd[k], nc[k]));
                assert(eq_mod_skip(nc[k], nb[k]));
            }
            // The right-child pass never touches the left subtree: their
            // regions are disjoint.
            assert forall|j: int| in_subtree(nc, l as int, j) implies nd[j] == nc[j] by {
                lemma_in_subtree_mod_skip(na, nc, l as int, j);
                lemma_region_contains(na, l as int, lo + 2, j);
                lemma_in_subtree_mod_skip(na, nc, r as int, j);
                if in_subtree(nc, r as int, j) {
                    lemma_region_contains(na, r as int, lo + 1 + tsize(na, l as int), j);
                }
            }
            lemma_skip_ok_frame(nc, nd, l as int, r as int);
            // Neither pass touches the parent node.
            assert(nd[ii] == nb[ii]) by {
                lemma_in_subtree_mod_skip(na, nb, l as int, ii);
                if in_subtree(nb, l as int, ii) {
                    lemma_region_contains(na, l as int, lo + 2, ii);
                }
                lemma_in_subtree_mod_skip(na, nc, r as int, ii);
                if in_subtree(nc, r as int, ii) {
                    lemma_region_contains(na, r as int, lo + 1 + tsize(na, l as int), ii);
                }
            }
            assert(skip_ok(nd, ii, next as int));
            // Changes are confined to the subtree of `idx`.
            assert forall|j: int|
                0 <= j < nd.len() && !in_subtree(na, ii, j) implies nd[j] == na[j] by {
                assert(j != ii);
                lemma_in_subtree_mod_skip(na, nb, l as int, j);
                lemma_in_subtree_mod_skip(na, nc, r as int, j);
                if in_subtree(nb, l as int, j) {
                    assert(in_subtree(na, l as int, j));
                    assert(in_subtree(na, ii, j));
                }
                if in_subtree(nc, r as int, j) {
                    assert(in_subtree(na, r as int, j));
                    assert(in_subtree(na, ii, j));
                }
            }
        }
    } else {
        proof {
            assert forall|j: int|
                0 <= j < nb.len() && !in_subtree(na, ii, j) implies nb[j] == na[j] by {
                assert(j != ii);
            }
        }
    }
}


/// The leaf indices of the subtree at `i`, in depth-first order.
pub open spec fn dfs_leaves(nodes: Seq<BVHNode>, i: int) -> Seq<int>
    decreases nodes.len() - i,
{
    if !(0 <= i < nodes.len()) {
        Seq::empty()
    } else if nodes[i].is_leaf {
        seq![i]
    } else {
        let l = nodes[i].left as int;
        let r = nodes[i].right as int;
        if i < l < nodes.len() && i < r < nodes.len() {
            dfs_leaves(nodes, l) + dfs_leaves(nodes, r)
        } else {
            Seq::empty()
        }
    }
}

/// How many of the listed leaves hold the element index `k` in their range.
pub open spec fn count_holding(nodes: Seq<BVHNode>, leaves: Seq<int>, k: int) -> int
    decreases leaves.len(),
{
    if leaves.len() == 0 {
        0
    } else {
        (if nodes[leaves[0]].start <= k < nodes[leaves[0]].end {
            1int
        } else {
            0int
        }) + count_holding(nodes, leaves.drop_first(), k)
    }
}

proof fn lemma_count_holding_concat(nodes: Seq<BVHNode>, a: Seq<int>, b: Seq<int>, k: int)
    ensures
        count_holding(nodes, a + b, k) == count_holding(nodes, a, k) + count_holding(nodes, b, k),
    decreases a.len(),
{
    if a.len() == 0 {
        assert(a + b =~= b);
    } else {
        assert((a + b).drop_first() =~= a.drop_first() + b);
        assert((a + b)[0] == a[0]);
        lemma_count_holding_concat(nodes, a.drop_first(), b, k);
    }
}

/// Partition completeness and range containment, combined: within the
/// subtree at `i`, an element index of the node's range `[start, end)`
/// falls in exactly one leaf's range, and an index outside it in none.
pub proof fn lemma_unique_leaf<P>(
    nodes: Seq<BVHNode>,
    elems: Seq<Element<P>>,
    threshold: int,
    i: int,
    k: int,
)
    requires
        tree_ok(nodes, elems, threshold),
        0 <= i < nodes.len(),
    ensures
        count_holding(nodes, dfs_leaves(nodes, i), k) == if nodes[i].start <= k < nodes[i].end {
            1int
        } else {
            0int
        },
    decreases nodes.len() - i,
{
    assert(node_ok(nodes, elems, i, threshold));
    if nodes[i].is_leaf {
        let leaves = dfs_leaves(nodes, i);
        assert(leaves =~= seq![i]);
        assert(leaves.drop_first() =~= Seq::<int>::empty());
        assert(count_holding(nodes, Seq::<int>::empty(), k) == 0);
        assert(leaves[0] == i);
    } else {
        let l = nodes[i].left as int;
        let r = nodes[i].right as int;
        lemma_unique_leaf(nodes, elems, threshold, l, k);
        lemma_unique_leaf(nodes, elems, threshold, r, k);
        assert(dfs_leaves(nodes, i) == dfs_leaves(nodes, l) + dfs_leaves(nodes, r));
        lemma_count_holding_concat(nodes, dfs_leaves(nodes, l), dfs_leaves(nodes, r), k);
        assert(node_ok(nodes, elems, l, threshold));
        assert(node_ok(nodes, elems, r, threshold));
    }
}

/// Every leaf reachable from `i` is listed among its depth-first leaves.
pub proof fn lemma_dfs_contains_leaf(nodes: Seq<BVHNode>, i: int, j: int)
    requires
        in_subtree(nodes, i, j),
        0 <= j < nodes.len(),
        nodes[j].is_leaf,
    ensures
        dfs_leaves(nodes, i).contains(j),
    decreases nodes.len() - i,
{
    if i == j {
        assert(dfs_leaves(nodes, i)[0] == j);
    } else {
        let l = nodes[i].left as int;
        let r = nodes[i].right as int;
        assert(dfs_leaves(nodes, i) == dfs_leaves(nodes, l) + dfs_leaves(nodes, r));
        if in_subtree(nodes, l, j) {
            lemma_dfs_contains_leaf(nodes, l, j);
            let p = choose|p: int| 0 <= p < dfs_leaves(nodes, l).len() && dfs_leaves(nodes, l)[p] == j;
            assert(dfs_leaves(nodes, i)[p] == j);
        } else {
            lemma_dfs_contains_leaf(nodes, r, j);
            let p = choose|p: int| 0 <= p < dfs_leaves(nodes, r).len() && dfs_leaves(nodes, r)[p] == j;
            assert(dfs_leaves(nodes, i)[dfs_leaves(nodes, l).len() + p] == j);
        }
    }
}

/// If a leaf occurred twice in a leaf list, the element at its start would
/// be held by two listed leaves.
proof fn lemma_count_holding_dup(nodes: Seq<BVHNode>, leaves: Seq<int>, p1: int, p2: int, k: int)
    requires
        0 <= p1 < p2 < leaves.len(),
        nodes[leaves[p1]].start <= k < nodes[leaves[p1]].end,
        nodes[leaves[p2]].start <= k < nodes[leaves[p2]].end,
    ensures
        count_holding(nodes, leaves, k) >= 2,
    decreases leaves.len(),
{
    if p1 == 0 {
        lemma_count_holding_ge_one(nodes, leaves.drop_first(), p2 - 1, k);
    } else {
        lemma_count_holding_dup(nodes, leaves.drop_first(), p1 - 1, p2 - 1, k);
    }
}

proof fn lemma_count_holding_ge_one(nodes: Seq<BVHNode>, leaves: Seq<int>, p: int, k: int)
    requires
        0 <= p < leaves.len(),
        nodes[leaves[p]].start <= k < nodes[leaves[p]].end,
    ensures
        count_holding(nodes, leaves, k) >= 1,
    decreases leaves.len(),
{
    if p > 0 {
        lemma_count_holding_ge_one(nodes, leaves.drop_first(), p - 1, k);
    } else {
        lemma_count_holding_nonneg(nodes, leaves.drop_first(), k);
    }
}

proof fn lemma_count_holding_nonneg(nodes: Seq<BVHNode>, leaves: Seq<int>, k: int)
    ensures
        count_holding(nodes, leaves, k) >= 0,
    decreases leaves.len(),
{
    if leaves.len() > 0 {
        lemma_count_holding_nonneg(nodes, leaves.drop_first(), k);
    }
}

/// No leaf is listed twice in the depth-first leaf order of a well-formed
/// tree: each leaf holds at least one element, which only one leaf may.
pub proof fn lemma_dfs_no_duplicates<P>(
    nodes: Seq<BVHNode>,
    elems: Seq<Element<P>>,
    threshold: int,
    i: int,
)
    requires
        tree_ok(nodes, elems, threshold),
        0 <= i < nodes.len(),
    ensures
        forall|p1: int, p2: int|
            0 <= p1 < p2 < dfs_leaves(nodes, i).len() ==> #[trigger] dfs_leaves(nodes, i)[p1]
                != #[trigger] dfs_leaves(nodes, i)[p2],
{
    let leaves = dfs_leaves(nodes, i);
    assert forall|p1: int, p2: int|
        0 <= p1 < p2 < leaves.len() implies #[trigger] leaves[p1] != #[trigger] leaves[p2] by {
        if leaves[p1] == leaves[p2] {
            lemma_dfs_leaves_are_leaves(nodes, i, p1);
            let j = leaves[p1];
            let k = nodes[j].start as int;
            assert(node_ok(nodes, elems, j, threshold));
            lemma_count_holding_dup(nodes, leaves, p1, p2, k);
            lemma_unique_leaf(nodes, elems, threshold, i, k);
        }
    }
}

/// Entries of the depth-first leaf list are in-bounds leaf nodes lying in
/// the subtree of `i`.
pub proof fn lemma_dfs_leaves_are_leaves(nodes: Seq<BVHNode>, i: int, p: int)
    requires
        0 <= p < dfs_leaves(nodes, i).len(),
    ensures
        0 <= dfs_leaves(nodes, i)[p] < nodes.len(),
        nodes[dfs_leaves(nodes, i)[p]].is_leaf,
        in_subtree(nodes, i, dfs_leaves(nodes, i)[p]),
    decreases nodes.len() - i,
{
    if !(0 <= i < nodes.len()) {
    } else if nodes[i].is_leaf {
    } else {
        let l = nodes[i].left as int;
        let r = nodes[i].right as int;
        if i < l < nodes.len() && i < r < nodes.len() {
            let dl = dfs_leaves(nodes, l);
            if p < dl.len() {
                lemma_dfs_leaves_are_leaves(nodes, l, p);
            } else {
                lemma_dfs_leaves_are_leaves(nodes, r, p - dl.len());
            }
        }
    }
}

/// Build a hierarchy over `elems`: a single leaf spanning the whole range
/// is split top-down at bounds midpoints until every leaf respects
/// `threshold` or cannot be split, then skip links are assigned; the
/// root's skip is the arena length, the out-of-range sentinel.
///
/// The returned arena is rooted at index 0 and covers the (reordered)
/// element sequence exactly; `tree_ok` carries bounds consistency, range
/// partitioning and the threshold guarantee for every node, `skip_ok` the
/// stackless-traversal links.
pub fn build<P: Copy>(elems: &mut Vec<Element<P>>, threshold: usize) -> (nodes: Vec<BVHNode>)
    requires
        old(elems)@.len() >= 1,
        threshold >= 1,
        elems_wf(old(elems)@),
    ensures
        final(elems)@.len() == old(elems)@.len(),
        final(elems)@.to_multiset() == old(elems)@.to_multiset(),
        elems_wf(final(elems)@),
        nodes@.len() >= 1,
        nodes@[0].start == 0,
        nodes@[0].end == final(elems)@.len(),
        tree_ok(nodes@, final(elems)@, threshold as int),
        region_ok(nodes@, 0, 1),
        skip_ok(nodes@, 0, nodes@.len() as int),
        forall|j: int| 0 <= j < nodes@.len() ==> in_subtree(nodes@, 0, j),
{
    let n = elems.len();
    let root_bounds = leaf_bounds(elems, 0, n);
    let mut nodes: Vec<BVHNode> = Vec::new();
    nodes.push(
        BVHNode {
            bounds: root_bounds,
            left: 0,
            right: 0,
            skip: 0,
            is_leaf: true,
            start: 0,
            end: n,
        },
    );
    subdivide_range(&mut nodes, elems, 0, 0, n, threshold);
    let ghost n_built = nodes@;
    let ghost e_fin = elems@;
    let sentinel = nodes.len();
    generate_skips(&mut nodes, 0, sentinel, Ghost(1));
    proof {
        let nf = nodes@;
        let th = threshold as int;
        assert forall|i: int| 0 <= i < nf.len() implies #[trigger] node_ok(nf, e_fin, i, th) by {
            assert(node_ok(n_built, e_fin, i, th));
            lemma_node_ok_mod_skip(n_built, nf, e_fin, i, th);
        }
        lemma_region_mod_skip(n_built, nf, 0, 1);
        assert forall|j: int| 0 <= j < nf.len() implies in_subtree(nf, 0, j) by {
            assert(in_subtree(n_built, 0, j));
            lemma_in_subtree_mod_skip(n_built, nf, 0, j);
        }
        assert(elems@.subrange(0, n as int) =~= elems@);
        assert(old(elems)@.subrange(0, n as int) =~= old(elems)@);
    }
    nodes
}


/// The leaves visited by the stackless walk started at `cur` with `fuel`
/// steps left: descend into `left` at an internal node, record a leaf and
/// jump to its `skip`.
pub open spec fn walk_visits(nodes: Seq<BVHNode>, cur: int, fuel: nat) -> Seq<int>
    decreases fuel,
{
    if fuel == 0 || !(0 <= cur < nodes.len()) {
        Seq::empty()
    } else if nodes[cur].is_leaf {
        seq![cur] + walk_visits(nodes, nodes[cur].skip as int, (fuel - 1) as nat)
    } else {
        walk_visits(nodes, nodes[cur].left as int, (fuel - 1) as nat)
    }
}

/// Where the stackless walk stands after running out of fuel or stepping
/// outside the arena (the sentinel).
pub open spec fn walk_end(nodes: Seq<BVHNode>, cur: int, fuel: nat) -> int
    decreases fuel,
{
    if fuel == 0 || !(0 <= cur < nodes.len()) {
        cur
    } else if nodes[cur].is_leaf {
        walk_end(nodes, nodes[cur].skip as int, (fuel - 1) as nat)
    } else {
        walk_end(nodes, nodes[cur].left as int, (fuel - 1) as nat)
    }
}

/// Walking into the subtree at `i` whose skip links exit to `nxt` visits
/// exactly the subtree's leaves in depth-first order, spends one step per
/// subtree node, and continues at `nxt`.
pub proof fn lemma_walk_subtree(nodes: Seq<BVHNode>, i: int, nxt: int, fuel: nat)
    requires
        skip_ok(nodes, i, nxt),
        fuel >= tsize(nodes, i),
    ensures
        walk_visits(nodes, i, fuel) == dfs_leaves(nodes, i) + walk_visits(
            nodes,
            nxt,
            (fuel - tsize(nodes, i)) as nat,
        ),
        walk_end(nodes, i, fuel) == walk_end(nodes, nxt, (fuel - tsize(nodes, i)) as nat),
    decreases nodes.len() - i,
{
    lemma_tsize_pos(nodes, i);
    if nodes[i].is_leaf {
        assert(walk_visits(nodes, i, fuel) == seq![i] + walk_visits(
            nodes,
            nxt,
            (fuel - 1) as nat,
        ));
        assert(dfs_leaves(nodes, i) + walk_visits(nodes, nxt, (fuel - 1) as nat) =~= seq![i]
            + walk_visits(nodes, nxt, (fuel - 1) as nat));
    } else {
        let l = nodes[i].left as int;
        let r = nodes[i].right as int;
        lemma_tsize_pos(nodes, l);
        lemma_tsize_pos(nodes, r);
        lemma_walk_subtree(nodes, l, r, (fuel - 1) as nat);
        lemma_walk_subtree(nodes, r, nxt, (fuel - 1 - tsize(nodes, l)) as nat);
        assert(dfs_leaves(nodes, i) == dfs_leaves(nodes, l) + dfs_leaves(nodes, r));
        assert(walk_visits(nodes, i, fuel) =~= dfs_leaves(nodes, i) + walk_visits(
            nodes,
            nxt,
            (fuel - tsize(nodes, i)) as nat,
        ));
    }
}

/// Skip-link traversal completeness: starting from the root with the
/// sentinel `nodes.len()` as the root's exit, the stackless walk visits
/// exactly the tree's leaves, in depth-first order, and terminates at the
/// sentinel after one step per node.
pub proof fn lemma_skip_traversal_complete(nodes: Seq<BVHNode>, fuel: nat)
    requires
        skip_ok(nodes, 0, nodes.len() as int),
        fuel >= tsize(nodes, 0),
    ensures
        walk_visits(nodes, 0, fuel) == dfs_leaves(nodes, 0),
        walk_end(nodes, 0, fuel) == nodes.len(),
{
    lemma_walk_subtree(nodes, 0, nodes.len() as int, fuel);
    assert(walk_visits(nodes, nodes.len() as int, (fuel - tsize(nodes, 0)) as nat)
        =~= Seq::<int>::empty());
    assert(dfs_leaves(nodes, 0) + Seq::<int>::empty() =~= dfs_leaves(nodes, 0));
}

/// Bounds consistency: an internal node's bounds are the union of its
/// children's; a leaf's bounds are the left-to-right union of its member
/// elements' bounds.
pub proof fn lemma_bounds_consistency<P>(
    nodes: Seq<BVHNode>,
    elems: Seq<Element<P>>,
    threshold: int,
    i: int,
)
    requires
        tree_ok(nodes, elems, threshold),
        elems_wf(elems),
        0 <= i < nodes.len(),
    ensures
        !nodes[i].is_leaf ==> nodes[i].bounds == nodes[nodes[i].left as int].bounds.spec_union(
            nodes[nodes[i].right as int].bounds,
        ),
        nodes[i].is_leaf ==> nodes[i].bounds == range_bounds(
            elems,
            nodes[i].start as int,
            nodes[i].end as int,
        ),
{
    assert(node_ok(nodes, elems, i, threshold));
    if nodes[i].is_leaf {
        let s = nodes[i].start as int;
        let e = nodes[i].end as int;
        lemma_range_bounds_is_bound(elems, s, e);
        lemma_range_bound_unique(nodes[i].bounds, range_bounds(elems, s, e), elems, s, e);
    }
}

/// Range containment: an internal node's children cover sub-ranges of its
/// own range and partition it exactly, with no gap and no overlap.
pub proof fn lemma_range_containment<P>(
    nodes: Seq<BVHNode>,
    elems: Seq<Element<P>>,
    threshold: int,
    i: int,
)
    requires
        tree_ok(nodes, elems, threshold),
        0 <= i < nodes.len(),
        !nodes[i].is_leaf,
    ensures
        nodes[nodes[i].left as int].start == nodes[i].start,
        nodes[nodes[i].left as int].end == nodes[nodes[i].right as int].start,
        nodes[nodes[i].right as int].end == nodes[i].end,
        nodes[i].start <= nodes[nodes[i].left as int].start,
        nodes[nodes[i].left as int].end <= nodes[i].end,
        nodes[i].start <= nodes[nodes[i].right as int].start,
        nodes[nodes[i].right as int].end <= nodes[i].end,
{
    assert(node_ok(nodes, elems, i, threshold));
    assert(node_ok(nodes, elems, nodes[i].left as int, threshold));
    assert(node_ok(nodes, elems, nodes[i].right as int, threshold));
}

/// Subdivision stops at the threshold: a node whose range holds no more
/// than `threshold` elements is a leaf — splitting happens only above
/// the threshold.
pub proof fn lemma_split_only_above_threshold<P>(
    nodes: Seq<BVHNode>,
    elems: Seq<Element<P>>,
    threshold: int,
    i: int,
)
    requires
        tree_ok(nodes, elems, threshold),
        0 <= i < nodes.len(),
        nodes[i].end - nodes[i].start <= threshold,
    ensures
        nodes[i].is_leaf,
{
    assert(node_ok(nodes, elems, i, threshold));
}

/// Midpoint split rule: an internal node's element range was parted at
/// the midpoint of the greatest extent of its bounds — every member of
/// its left child has its centroid strictly below the split coordinate,
/// every member of its right child at or above it (ties go right).
pub proof fn lemma_split_plane_respected<P>(
    nodes: Seq<BVHNode>,
    elems: Seq<Element<P>>,
    threshold: int,
    i: int,
)
    requires
        tree_ok(nodes, elems, threshold),
        0 <= i < nodes.len(),
        !nodes[i].is_leaf,
    ensures
        all_below(
            elems,
            nodes[i].start as int,
            nodes[nodes[i].left as int].end as int,
            spec_split_axis(nodes[i].bounds),
            spec_split_coord(nodes[i].bounds),
        ),
        all_at_or_above(
            elems,
            nodes[nodes[i].right as int].start as int,
            nodes[i].end as int,
            spec_split_axis(nodes[i].bounds),
            spec_split_coord(nodes[i].bounds),
        ),
{
    assert(node_ok(nodes, elems, i, threshold));
}

/// Threshold respected: every leaf holds at most `threshold` elements,
/// except one kept whole by the degenerate-split guard, whose centroids
/// all fall on one side of its midpoint split plane.
pub proof fn lemma_threshold_respected<P>(
    nodes: Seq<BVHNode>,
    elems: Seq<Element<P>>,
    threshold: int,
    i: int,
)
    requires
        tree_ok(nodes, elems, threshold),
        0 <= i < nodes.len(),
        nodes[i].is_leaf,
    ensures
        nodes[i].end - nodes[i].start <= threshold || split_degenerate(
            elems,
            nodes[i].start as int,
            nodes[i].end as int,
            nodes[i].bounds,
        ),
{
    assert(node_ok(nodes, elems, i, threshold));
}

/// Run the stackless skip-link walk over a built arena, returning the
/// indices of the leaves in visit order. One step per node: descend left
/// at an internal node, follow `skip` from a leaf; the walk ends when the
/// sentinel (the arena length) is reached.
pub fn leaf_order(nodes: &Vec<BVHNode>) -> (r: Vec<usize>)
    requires
        nodes@.len() >= 1,
        skip_ok(nodes@, 0, nodes@.len() as int),
    ensures
        r@.map_values(|x: usize| x as int) == dfs_leaves(nodes@, 0),
{
    proof {
        lemma_tsize_pos(nodes@, 0);
        lemma_skip_traversal_complete(nodes@, tsize(nodes@, 0) as nat);
    }
    let mut visited: Vec<usize> = Vec::new();
    let mut cur: usize = 0;
    let ghost total = tsize(nodes@, 0) as nat;
    let ghost fuel_left = total;
    let mut fuel_left = Ghost(fuel_left);
    while cur < nodes.len()
        invariant
            nodes@.len() >= 1,
            cur <= nodes@.len(),
            fuel_left@ <= total,
            visited@.map_values(|x: usize| x as int) + walk_visits(nodes@, cur as int, fuel_left@)
                == dfs_leaves(nodes@, 0),
            walk_end(nodes@, cur as int, fuel_left@) == nodes@.len(),
        decreases fuel_left@,
    {
        proof {
            if fuel_left@ == 0 {
                assert(walk_end(nodes@, cur as int, fuel_left@) == cur as int);
                assert(false);
            }
        }
        if nodes[cur].is_leaf {
            visited.push(cur);
            let ghost pre_map = visited@.map_values(|x: usize| x as int);
            let nxt = nodes[cur].skip;
            proof {
                assert(walk_visits(nodes@, cur as int, fuel_left@) == seq![cur as int]
                    + walk_visits(nodes@, nxt as int, (fuel_left@ - 1) as nat));
                assert(visited@.map_values(|x: usize| x as int) =~= pre_map.drop_last().push(
                    cur as int,
                ));
                assert(visited@.map_values(|x: usize| x as int) + walk_visits(
                    nodes@,
                    nxt as int,
                    (fuel_left@ - 1) as nat,
                ) =~= pre_map.drop_last() + walk_visits(nodes@, cur as int, fuel_left@));
            }
            // A leaf's skip target is at most the sentinel, so the cursor
            // stays in range.
            proof {
                assert(nxt <= nodes@.len()) by {
                    if nxt > nodes@.len() {
                        assert(walk_end(nodes@, nxt as int, (fuel_left@ - 1) as nat) == nxt as int);
                    }
                }
            }
            cur = nxt;
        } else {
            proof {
                assert(nodes@[cur as int].left <= nodes@.len()) by {
                    if nodes@[cur as int].left > nodes@.len() {
                        assert(walk_end(
                            nodes@,
                            nodes@[cur as int].left as int,
                            (fuel_left@ - 1) as nat,
                        ) == nodes@[cur as int].left as int);
                    }
                }
            }
            cur = nodes[cur].left;
        }
        proof {
            fuel_left@ = (fuel_left@ - 1) as nat;
        }
    }
    proof {
        assert(walk_visits(nodes@, cur as int, fuel_left@) =~= Seq::<int>::empty());
        assert(visited@.map_values(|x: usize| x as int) + Seq::<int>::empty() =~= visited@
            .map_values(|x: usize| x as int));
    }
    visited
}


/// Sequences with equal multisets have equal lengths.
proof fn lemma_multiset_len_eq<A>(pre: Seq<A>, post: Seq<A>)
    requires
        pre.to_multiset() == post.to_multiset(),
    ensures
        pre.len() == post.len(),
{
    pre.to_multiset_ensures();
    post.to_multiset_ensures();
}

/// Mapping a function over two sequences with equal multisets yields
/// sequences with equal multisets.
pub proof fn lemma_map_values_multiset<A, B>(pre: Seq<A>, post: Seq<A>, f: spec_fn(A) -> B)
    requires
        pre.to_multiset() == post.to_multiset(),
    ensures
        pre.map_values(f).to_multiset() == post.map_values(f).to_multiset(),
    decreases pre.len(),
{
    broadcast use vstd::seq_lib::group_to_multiset_ensures;
    broadcast use vstd::multiset::group_multiset_axioms;

    if pre.len() == 0 {
        lemma_multiset_len_eq(pre, post);
        assert(post.len() == 0);
        assert(pre.map_values(f) =~= Seq::<B>::empty());
        assert(post.map_values(f) =~= Seq::<B>::empty());
    } else {
        let n = pre.len() as int;
        let x = pre[n - 1];
        assert(pre.contains(x));
        assert(post.to_multiset().count(x) > 0);
        assert(post.contains(x));
        let j = choose|j: int| 0 <= j < post.len() && post[j] == x;
        let pre2 = pre.remove(n - 1);
        let post2 = post.remove(j);
        assert(pre2.to_multiset() == pre.to_multiset().remove(x));
        assert(post2.to_multiset() == post.to_multiset().remove(x));
        lemma_map_values_multiset(pre2, post2, f);
        assert(pre2.map_values(f) =~= pre.map_values(f).remove(n - 1));
        assert(post2.map_values(f) =~= post.map_values(f).remove(j));
        assert(pre.map_values(f).remove(n - 1).to_multiset() == pre.map_values(f)
            .to_multiset().remove(f(x)));
        assert(post.map_values(f).remove(j).to_multiset() == post.map_values(f)
            .to_multiset().remove(f(x)));
        pre.map_values(f).to_multiset_ensures();
        post.map_values(f).to_multiset_ensures();
        assert(pre.map_values(f).contains(f(x))) by {
            assert(pre.map_values(f)[n - 1] == f(x));
        }
        assert(post.map_values(f).contains(f(x))) by {
            assert(post.map_values(f)[j] == f(x));
        }
        assert(pre.map_values(f).to_multiset().count(f(x)) > 0);
        assert(post.map_values(f).to_multiset().count(f(x)) > 0);
        assert forall|v: B|
            #[trigger] pre.map_values(f).to_multiset().count(v) == post.map_values(
                f,
            ).to_multiset().count(v) by {
            assert(pre.map_values(f).to_multiset().remove(f(x)).count(v) == post.map_values(
                f,
            ).to_multiset().remove(f(x)).count(v));
        }
        assert(pre.map_values(f).to_multiset() =~= post.map_values(f).to_multiset());
    }
}


/// Every skip link of a subtree whose exit is in range points at most at
/// the arena length.
pub proof fn lemma_skip_bounded(nodes: Seq<BVHNode>, i: int, nxt: int, j: int)
    requires
        skip_ok(nodes, i, nxt),
        0 <= nxt <= nodes.len(),
        in_subtree(nodes, i, j),
    ensures
        nodes[j].skip <= nodes.len(),
    decreases nodes.len() - i,
{
    if i == j {
    } else {
        let l = nodes[i].left as int;
        let r = nodes[i].right as int;
        if in_subtree(nodes, l, j) {
            lemma_skip_bounded(nodes, l, r, j);
        } else {
            lemma_skip_bounded(nodes, r, nxt, j);
        }
    }
}

} // verus!
