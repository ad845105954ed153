//! Top-level acceleration structure: a hierarchy over per-instance
//! world-space bounds.
//!
//! Each instance places one mesh in the scene under an affine transform.
//! Its world-space box is the bound of the eight corners of the mesh's
//! root box pushed through the transform; the hierarchy is then built over
//! those boxes with a small leaf threshold.

use vstd::prelude::*;

use crate::blas::BLAS;
use crate::bvh::{
    appears, build, in_subtree, lemma_map_values_multiset, lemma_perm_containment, region_ok,
    skip_ok, tree_ok, BVHNode, Element,
};
use crate::geom::{div2, div2_trunc, fp_mul, fp_scale, imax, imin, Axis, AABB, FP_ONE, Vec3};

verus! {

/// Leaf-size threshold used for the scene hierarchy.
pub const TLAS_LEAF_THRESHOLD: usize = 2;

/// An affine transform in fixed point: the three rows of the combined
/// scale-and-rotation matrix, plus a translation. The host derives the
/// rows from scale factors and rotation angles.
#[derive(Clone, Copy, Debug, PartialEq, Eq, Structural)]
pub struct Transform {
    pub rx: Vec3,
    pub ry: Vec3,
    pub rz: Vec3,
    pub t: Vec3,
}

impl Transform {
    /// The identity transform.
    pub open spec fn spec_identity() -> Transform {
        Transform {
            rx: Vec3 { x: FP_ONE, y: 0, z: 0 },
            ry: Vec3 { x: 0, y: FP_ONE, z: 0 },
            rz: Vec3 { x: 0, y: 0, z: FP_ONE },
            t: Vec3 { x: 0, y: 0, z: 0 },
        }
    }

    pub fn identity() -> (r: Transform)
        ensures
            r == Transform::spec_identity(),
    {
        Transform {
            rx: Vec3 { x: FP_ONE, y: 0, z: 0 },
            ry: Vec3 { x: 0, y: FP_ONE, z: 0 },
            rz: Vec3 { x: 0, y: 0, z: FP_ONE },
            t: Vec3 { x: 0, y: 0, z: 0 },
        }
    }

    /// A pure translation.
    pub fn translation(t: Vec3) -> (r: Transform)
        ensures
            r == (Transform { t, ..Transform::spec_identity() }),
    {
        Transform { t, ..Transform::identity() }
    }
}

/// The transformed coordinate contributed by matrix row `row` and
/// translation component `t` at point `p`: each product is rescaled to
/// fixed point before summing.
pub open spec fn tf_row(row: Vec3, t: int, p: Vec3) -> int {
    fp_scale(row.x as int * p.x as int) + fp_scale(row.y as int * p.y as int) + fp_scale(
        row.z as int * p.z as int,
    ) + t
}

/// The transformed coordinate of `p` on `axis`.
pub open spec fn tf_on(tf: Transform, p: Vec3, axis: Axis) -> int {
    match axis {
        Axis::X => tf_row(tf.rx, tf.t.x as int, p),
        Axis::Y => tf_row(tf.ry, tf.t.y as int, p),
        Axis::Z => tf_row(tf.rz, tf.t.z as int, p),
    }
}

fn tf_apply_row(row: Vec3, t: i32, p: Vec3) -> (r: i64)
    ensures
        r as int == tf_row(row, t as int, p),
{
    fp_mul(row.x, p.x) + fp_mul(row.y, p.y) + fp_mul(row.z, p.z) + t as i64
}

/// Corner `i` of a box, for `i` in `[0, 8)`: bit 1 selects the upper
/// corner on x, bit 2 on y, bit 4 on z.
pub open spec fn corner(b: AABB, i: int) -> Vec3 {
    Vec3 {
        x: if i % 2 == 1 {
            b.ub.x
        } else {
            b.lb.x
        },
        y: if (i / 2) % 2 == 1 {
            b.ub.y
        } else {
            b.lb.y
        },
        z: if (i / 4) % 2 == 1 {
            b.ub.z
        } else {
            b.lb.z
        },
    }
}

fn corner_exec(b: &AABB, i: usize) -> (r: Vec3)
    requires
        i < 8,
    ensures
        r == corner(*b, i as int),
{
    Vec3 {
        x: if i % 2 == 1 {
            b.ub.x
        } else {
            b.lb.x
        },
        y: if (i / 2) % 2 == 1 {
            b.ub.y
        } else {
            b.lb.y
        },
        z: if (i / 4) % 2 == 1 {
            b.ub.z
        } else {
            b.lb.z
        },
    }
}

/// The least transformed coordinate on `axis` among the first `k` corners.
pub open spec fn corner_min(tf: Transform, b: AABB, axis: Axis, k: int) -> int
    decreases k,
{
    if k <= 1 {
        tf_on(tf, corner(b, 0), axis)
    } else {
        imin(corner_min(tf, b, axis, k - 1), tf_on(tf, corner(b, k - 1), axis))
    }
}

/// The greatest transformed coordinate on `axis` among the first `k`
/// corners.
pub open spec fn corner_max(tf: Transform, b: AABB, axis: Axis, k: int) -> int
    decreases k,
{
    if k <= 1 {
        tf_on(tf, corner(b, 0), axis)
    } else {
        imax(corner_max(tf, b, axis, k - 1), tf_on(tf, corner(b, k - 1), axis))
    }
}

/// All eight transformed corner coordinates fit the fixed-point range.
pub open spec fn world_bounds_fit(b: AABB, tf: Transform) -> bool {
    &&& i32::MIN <= corner_min(tf, b, Axis::X, 8)
    &&& corner_max(tf, b, Axis::X, 8) <= i32::MAX
    &&& i32::MIN <= corner_min(tf, b, Axis::Y, 8)
    &&& corner_max(tf, b, Axis::Y, 8) <= i32::MAX
    &&& i32::MIN <= corner_min(tf, b, Axis::Z, 8)
    &&& corner_max(tf, b, Axis::Z, 8) <= i32::MAX
}

/// The world-space box of a transformed box: the bound of its eight
/// transformed corners. Meaningful when `world_bounds_fit` holds.
pub open spec fn world_bounds(b: AABB, tf: Transform) -> AABB {
    AABB {
        lb: Vec3 {
            x: corner_min(tf, b, Axis::X, 8) as i32,
            y: corner_min(tf, b, Axis::Y, 8) as i32,
            z: corner_min(tf, b, Axis::Z, 8) as i32,
        },
        ub: Vec3 {
            x: corner_max(tf, b, Axis::X, 8) as i32,
            y: corner_max(tf, b, Axis::Y, 8) as i32,
            z: corner_max(tf, b, Axis::Z, 8) as i32,
        },
    }
}

/// Why a scene hierarchy could not be built.
#[derive(Clone, Copy, Debug, PartialEq, Eq, Structural)]
pub enum TlasError {
    /// An instance names a mesh id with no built hierarchy.
    UnknownMesh,
    /// A transformed bound leaves the fixed-point coordinate range.
    TransformOverflow,
}

/// Push the eight corners of `root` through `tf` and bound them, checking
/// that every coordinate stays representable.
fn instance_world_bounds(root: &AABB, tf: &Transform) -> (r: Option<AABB>)
    ensures
        r is Some <==> world_bounds_fit(*root, *tf),
        r is Some ==> r->0 == world_bounds(*root, *tf) && r->0.wf(),
{
    let c0 = corner_exec(root, 0);
    let mut mnx: i64 = tf_apply_row(tf.rx, tf.t.x, c0);
    let mut mny: i64 = tf_apply_row(tf.ry, tf.t.y, c0);
    let mut mnz: i64 = tf_apply_row(tf.rz, tf.t.z, c0);
    let mut mxx: i64 = mnx;
    let mut mxy: i64 = mny;
    let mut mxz: i64 = mnz;
    let mut i: usize = 1;
    while i < 8
        invariant
            1 <= i <= 8,
            mnx as int == corner_min(*tf, *root, Axis::X, i as int),
            mny as int == corner_min(*tf, *root, Axis::Y, i as int),
            mnz as int == corner_min(*tf, *root, Axis::Z, i as int),
            mxx as int == corner_max(*tf, *root, Axis::X, i as int),
            mxy as int == corner_max(*tf, *root, Axis::Y, i as int),
            mxz as int == corner_max(*tf, *root, Axis::Z, i as int),
        decreases 8 - i,
    {
        let c = corner_exec(root, i);
        let x = tf_apply_row(tf.rx, tf.t.x, c);
        let y = tf_apply_row(tf.ry, tf.t.y, c);
        let z = tf_apply_row(tf.rz, tf.t.z, c);
        if x < mnx {
            mnx = x;
        }
        if y < mny {
            mny = y;
        }
        if z < mnz {
            mnz = z;
        }
        if x > mxx {
            mxx = x;
        }
        if y > mxy {
            mxy = y;
        }
        if z > mxz {
            mxz = z;
        }
        i = i + 1;
    }
    if mnx < i32::MIN as i64 || mxx > i32::MAX as i64 || mny < i32::MIN as i64 || mxy
        > i32::MAX as i64 || mnz < i32::MIN as i64 || mxz > i32::MAX as i64 {
        return None;
    }
    proof {
        lemma_corner_min_le_max(*tf, *root, Axis::X, 8);
        lemma_corner_min_le_max(*tf, *root, Axis::Y, 8);
        lemma_corner_min_le_max(*tf, *root, Axis::Z, 8);
    }
    Some(
        AABB {
            lb: Vec3 { x: mnx as i32, y: mny as i32, z: mnz as i32 },
            ub: Vec3 { x: mxx as i32, y: mxy as i32, z: mxz as i32 },
        },
    )
}

/// The corner minimum never exceeds the corner maximum.
proof fn lemma_corner_min_le_max(tf: Transform, b: AABB, axis: Axis, k: int)
    requires
        k >= 1,
    ensures
        corner_min(tf, b, axis, k) <= corner_max(tf, b, axis, k),
    decreases k,
{
    if k > 1 {
        lemma_corner_min_le_max(tf, b, axis, k - 1);
    }
}

/// One placed mesh: its transform, the id of its mesh's hierarchy, and
/// its material kind and parameter index.
#[derive(Clone, Copy, Debug, PartialEq, Eq, Structural)]
pub struct Instance {
    pub transform: Transform,
    pub mesh: u32,
    pub material: u32,
    pub material_idx: u32,
}

/// The centroid of a box on `axis`: the corner sum divided by two,
/// rounded toward zero.
pub open spec fn aabb_centroid(b: AABB, axis: Axis) -> int {
    div2_trunc(b.lb.on_axis(axis) + b.ub.on_axis(axis))
}

/// The builder element an instance's world box stands for, with the
/// instance id as payload.
pub open spec fn tlas_element(b: AABB, id: usize) -> Element<usize> {
    Element {
        bounds: b,
        cx: aabb_centroid(b, Axis::X) as i64,
        cy: aabb_centroid(b, Axis::Y) as i64,
        cz: aabb_centroid(b, Axis::Z) as i64,
        item: id,
    }
}

/// The element sequence a box/id pairing stands for.
pub open spec fn tlas_elements(aabbs: Seq<AABB>, ids: Seq<usize>) -> Seq<Element<usize>>
    recommends
        ids.len() == aabbs.len(),
{
    Seq::new(aabbs.len(), |k: int| tlas_element(aabbs[k], ids[k]))
}

/// The identity id sequence `0, 1, ..., n-1`.
pub open spec fn id_sequence(n: int) -> Seq<usize> {
    Seq::new(n as nat, |k: int| k as usize)
}

/// A scene hierarchy: the node arena over the instances' world boxes,
/// with the instance ids and boxes in final (reordered) element order.
pub struct TLAS {
    pub nodes: Vec<BVHNode>,
    pub instance_ids: Vec<usize>,
    pub aabbs: Vec<AABB>,
}

impl TLAS {
    /// A built scene hierarchy: a well-formed tree over exactly the
    /// box/id pairing, rooted at 0, with skip links whose sentinel is the
    /// arena length.
    pub open spec fn wf(self) -> bool {
        &&& self.instance_ids@.len() == self.aabbs@.len()
        &&& self.aabbs@.len() >= 1
        &&& self.nodes@.len() >= 1
        &&& self.nodes@[0].start == 0
        &&& self.nodes@[0].end == self.aabbs@.len()
        &&& tree_ok(
            self.nodes@,
            tlas_elements(self.aabbs@, self.instance_ids@),
            TLAS_LEAF_THRESHOLD as int,
        )
        &&& skip_ok(self.nodes@, 0, self.nodes@.len() as int)
        &&& region_ok(self.nodes@, 0, 1)
        &&& forall|j: int| 0 <= j < self.nodes@.len() ==> in_subtree(self.nodes@, 0, j)
    }

    /// Build the scene hierarchy: compute each instance's world box from
    /// its mesh's root bounds and its transform, then split with the
    /// scene leaf threshold. The ids come back reordered (a permutation
    /// of `0..n`), each still paired with its own world box.
    pub fn new(blases: &Vec<BLAS>, instances: &Vec<Instance>) -> (r: Result<TLAS, TlasError>)
        requires
            instances@.len() >= 1,
            forall|m: int| 0 <= m < blases@.len() ==> (#[trigger] blases@[m]).wf(),
        ensures
            match r {
                Ok(t) => {
                    &&& t.wf()
                    &&& t.instance_ids@.len() == instances@.len()
                    &&& t.instance_ids@.to_multiset() == id_sequence(
                        instances@.len() as int,
                    ).to_multiset()
                    &&& forall|k: int|
                        0 <= k < t.instance_ids@.len() ==> {
                            let id = (#[trigger] t.instance_ids@[k]) as int;
                            &&& id < instances@.len()
                            &&& instances@[id].mesh < blases@.len()
                            &&& t.aabbs@[k] == world_bounds(
                                blases@[instances@[id].mesh as int].nodes@[0].bounds,
                                instances@[id].transform,
                            )
                        }
                },
                Err(TlasError::UnknownMesh) => exists|k: int|
                    0 <= k < instances@.len() && (#[trigger] instances@[k]).mesh
                        >= blases@.len(),
                Err(TlasError::TransformOverflow) => exists|k: int|
                    0 <= k < instances@.len() && (#[trigger] instances@[k]).mesh < blases@.len()
                        && !world_bounds_fit(
                        blases@[instances@[k].mesh as int].nodes@[0].bounds,
                        instances@[k].transform,
                    ),
            },
            r is Err <==> exists|k: int|
                0 <= k < instances@.len() && ((#[trigger] instances@[k]).mesh >= blases@.len()
                    || !world_bounds_fit(
                    blases@[instances@[k].mesh as int].nodes@[0].bounds,
                    instances@[k].transform,
                )),
    {
        let n = instances.len();
        let mut elems: Vec<Element<usize>> = Vec::new();
        let mut k: usize = 0;
        while k < n
            invariant
                0 <= k <= n,
                n == instances@.len(),
                forall|m: int| 0 <= m < blases@.len() ==> (#[trigger] blases@[m]).wf(),
                elems@.len() == k,
                forall|j: int| 0 <= j < k ==> (#[trigger] elems@[j]).bounds.wf(),
                forall|j: int|
                    0 <= j < k ==> {
                        let inst = instances@[j];
                        &&& (#[trigger] instances@[j]).mesh < blases@.len()
                        &&& world_bounds_fit(
                            blases@[inst.mesh as int].nodes@[0].bounds,
                            inst.transform,
                        )
                        &&& elems@[j] == tlas_element(
                            world_bounds(
                                blases@[inst.mesh as int].nodes@[0].bounds,
                                inst.transform,
                            ),
                            j as usize,
                        )
                    },
            decreases n - k,
        {
            let inst = instances[k];
            if inst.mesh as usize >= blases.len() {
                return Err(TlasError::UnknownMesh);
            }
            let root_b = blases[inst.mesh as usize].nodes[0].bounds;
            match instance_world_bounds(&root_b, &inst.transform) {
                None => {
                    return Err(TlasError::TransformOverflow);
                },
                Some(bb) => {
                    let cx = div2(bb.lb.x as i64 + bb.ub.x as i64);
                    let cy = div2(bb.lb.y as i64 + bb.ub.y as i64);
                    let cz = div2(bb.lb.z as i64 + bb.ub.z as i64);
                    elems.push(Element { bounds: bb, cx, cy, cz, item: k });
                },
            }
            k = k + 1;
        }
        let ghost elems0 = elems@;
        let nodes = build(&mut elems, TLAS_LEAF_THRESHOLD);
        let ghost elems1 = elems@;
        let nn = elems.len();
        let mut instance_ids: Vec<usize> = Vec::new();
        let mut aabbs: Vec<AABB> = Vec::new();
        let mut k2: usize = 0;
        while k2 < nn
            invariant
                0 <= k2 <= nn,
                nn == elems@.len(),
                elems@ == elems1,
                instance_ids@ == elems1.map_values(|el: Element<usize>| el.item).take(k2 as int),
                aabbs@ == elems1.map_values(|el: Element<usize>| el.bounds).take(k2 as int),
            decreases nn - k2,
        {
            instance_ids.push(elems[k2].item);
            aabbs.push(elems[k2].bounds);
            proof {
                assert(instance_ids@ =~= elems1.map_values(|el: Element<usize>| el.item).take(
                    k2 + 1,
                ));
                assert(aabbs@ =~= elems1.map_values(|el: Element<usize>| el.bounds).take(k2 + 1));
            }
            k2 = k2 + 1;
        }
        proof {
            let item_of = |el: Element<usize>| el.item;
            assert(instance_ids@ =~= elems1.map_values(item_of));
            assert(aabbs@ =~= elems1.map_values(|el: Element<usize>| el.bounds));
            assert(elems0.subrange(0, elems0.len() as int) =~= elems0);
            assert(elems1.subrange(0, elems1.len() as int) =~= elems1);
            lemma_perm_containment(elems0, elems1, 0, elems0.len() as int);
            assert forall|j: int| 0 <= j < elems1.len() implies {
                let inst = instances@[elems1[j].item as int];
                &&& (#[trigger] elems1[j]).item < instances@.len()
                &&& inst.mesh < blases@.len()
                &&& elems1[j] == tlas_element(
                    world_bounds(blases@[inst.mesh as int].nodes@[0].bounds, inst.transform),
                    elems1[j].item,
                )
            } by {
                assert(appears(elems1[j], elems0, 0, elems0.len() as int));
                let j2 = choose|j2: int| 0 <= j2 < elems0.len() && elems0[j2] == elems1[j];
                assert(elems0[j2] == tlas_element(
                    world_bounds(
                        blases@[instances@[j2].mesh as int].nodes@[0].bounds,
                        instances@[j2].transform,
                    ),
                    j2 as usize,
                ));
            }
            assert(elems1 =~= tlas_elements(aabbs@, instance_ids@));
            lemma_map_values_multiset(elems0, elems1, item_of);
            assert forall|j: int| 0 <= j < elems0.len() implies elems0.map_values(item_of)[j]
                == id_sequence(instances@.len() as int)[j] by {
                assert((#[trigger] instances@[j]).mesh < blases@.len());
                assert(elems0[j].item == j as usize);
            }
            assert(elems0.map_values(item_of) =~= id_sequence(instances@.len() as int));
        }
        Ok(TLAS { nodes, instance_ids, aabbs })
    }
}

} // verus!
