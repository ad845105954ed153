//! Acceleration-structure packer: merge independently built per-mesh
//! hierarchies into one flat node/vertex/normal/face buffer set.
//!
//! For each input structure, in order, the packer records the position of
//! its root in the merged node array, shifts every node's face range by
//! the running face offset and its links by the running node offset, and
//! appends its geometry arrays with face indices shifted by the running
//! vertex offset. Offsets accumulate strictly left-to-right.

use vstd::prelude::*;

use crate::blas::BLAS;
use crate::encode::{encode_aabb, encode_node, node_gpu, aabb_words, node_words, spec_node_gpu};
use crate::bvh::{in_subtree, lemma_skip_bounded, node_ok, BVHNode};
use crate::geom::Vec3;
use crate::mesh::{faces_valid, Face, Mesh};
use crate::tlas::TLAS;

verus! {

/// The index of the first node of mesh `m` in the merged node array.
pub open spec fn node_off(bvhs: Seq<BLAS>, m: int) -> int
    decreases m,
{
    if m <= 0 {
        0
    } else {
        node_off(bvhs, m - 1) + bvhs[m - 1].nodes@.len()
    }
}

/// The index of the first face of mesh `m` in the merged face array.
pub open spec fn face_off(bvhs: Seq<BLAS>, m: int) -> int
    decreases m,
{
    if m <= 0 {
        0
    } else {
        face_off(bvhs, m - 1) + bvhs[m - 1].tri_faces@.len()
    }
}

/// The index of the first vertex of mesh `m` in the merged position array.
pub open spec fn vert_off(bvhs: Seq<BLAS>, m: int) -> int
    decreases m,
{
    if m <= 0 {
        0
    } else {
        vert_off(bvhs, m - 1) + bvhs[m - 1].tri_positions@.len()
    }
}

/// The index of the first normal of mesh `m` in the merged normal array.
pub open spec fn norm_off(bvhs: Seq<BLAS>, m: int) -> int
    decreases m,
{
    if m <= 0 {
        0
    } else {
        norm_off(bvhs, m - 1) + bvhs[m - 1].tri_normals@.len()
    }
}

/// A node as it appears in the merged arena: face range shifted by the
/// face offset, links (children and skip) by the node offset.
pub open spec fn offset_node(n: BVHNode, foff: int, noff: int) -> BVHNode {
    BVHNode {
        bounds: n.bounds,
        left: (n.left + noff) as usize,
        right: (n.right + noff) as usize,
        skip: (n.skip + noff) as usize,
        is_leaf: n.is_leaf,
        start: (n.start + foff) as usize,
        end: (n.end + foff) as usize,
    }
}

/// A face as it appears in the merged face array: every vertex index
/// shifted by the vertex offset.
pub open spec fn offset_face(f: Face, voff: int) -> Face {
    Face { a: (f.a + voff) as u32, b: (f.b + voff) as u32, c: (f.c + voff) as u32 }
}

/// Why packing was refused.
#[derive(Clone, Copy, Debug, PartialEq, Eq, Structural)]
pub enum PackError {
    /// A merged buffer would hold more entries than an index can address.
    TooLarge,
}

/// The merged buffers describe exactly the input structures, each shifted
/// by its running offsets.
pub open spec fn blas_data_ok(d: BLASData, bvhs: Seq<BLAS>) -> bool {
    let n = bvhs.len() as int;
    &&& d.roots@.len() == n
    &&& forall|m: int| 0 <= m < n ==> #[trigger] d.roots@[m] == node_off(bvhs, m)
    &&& d.nodes@.len() == node_off(bvhs, n)
    &&& forall|m: int, j: int|
        0 <= m < n && 0 <= j < bvhs[m].nodes@.len() ==> #[trigger] d.nodes@[node_off(bvhs, m) + j]
            == offset_node(bvhs[m].nodes@[j], face_off(bvhs, m), node_off(bvhs, m))
    &&& d.tri_positions@.len() == vert_off(bvhs, n)
    &&& forall|m: int, j: int|
        0 <= m < n && 0 <= j < bvhs[m].tri_positions@.len() ==> #[trigger] d.tri_positions@[
            vert_off(bvhs, m) + j] == bvhs[m].tri_positions@[j]
    &&& d.tri_normals@.len() == norm_off(bvhs, n)
    &&& forall|m: int, j: int|
        0 <= m < n && 0 <= j < bvhs[m].tri_normals@.len() ==> #[trigger] d.tri_normals@[norm_off(
            bvhs,
            m,
        ) + j] == bvhs[m].tri_normals@[j]
    &&& d.tri_faces@.len() == face_off(bvhs, n)
    &&& forall|m: int, j: int|
        0 <= m < n && 0 <= j < bvhs[m].tri_faces@.len() ==> #[trigger] d.tri_faces@[face_off(
            bvhs,
            m,
        ) + j] == offset_face(bvhs[m].tri_faces@[j], vert_off(bvhs, m))
}

/// The merged buffer set of all per-mesh hierarchies: one node arena, one
/// position/normal/face buffer each, and the per-mesh root indices.
pub struct BLASData {
    pub nodes: Vec<BVHNode>,
    pub roots: Vec<u32>,
    pub tri_positions: Vec<Vec3>,
    pub tri_normals: Vec<Vec3>,
    pub tri_faces: Vec<Face>,
}

/// Offsets only grow along the mesh list.
proof fn lemma_offs_monotone(bvhs: Seq<BLAS>, m1: int, m2: int)
    requires
        0 <= m1 <= m2,
    ensures
        node_off(bvhs, m1) <= node_off(bvhs, m2),
        face_off(bvhs, m1) <= face_off(bvhs, m2),
        vert_off(bvhs, m1) <= vert_off(bvhs, m2),
        norm_off(bvhs, m1) <= norm_off(bvhs, m2),
        node_off(bvhs, m1) >= 0,
        face_off(bvhs, m1) >= 0,
        vert_off(bvhs, m1) >= 0,
        norm_off(bvhs, m1) >= 0,
    decreases m2,
{
    if m2 > m1 {
        lemma_offs_monotone(bvhs, m1, m2 - 1);
    } else if m2 > 0 {
        lemma_offs_monotone(bvhs, 0, m2 - 1);
    }
}

impl BLASData {
    /// Merge the given hierarchies. Fails only when a merged buffer would
    /// outgrow the 32-bit indices of the record format.
    pub fn new(bvhs: &Vec<BLAS>) -> (r: Result<BLASData, PackError>)
        requires
            forall|m: int| 0 <= m < bvhs@.len() ==> (#[trigger] bvhs@[m]).wf(),
        ensures
            match r {
                Ok(d) => blas_data_ok(d, bvhs@),
                Err(PackError::TooLarge) => node_off(bvhs@, bvhs@.len() as int) > u32::MAX
                    || face_off(bvhs@, bvhs@.len() as int) > u32::MAX || vert_off(
                    bvhs@,
                    bvhs@.len() as int,
                ) > u32::MAX || norm_off(bvhs@, bvhs@.len() as int) > u32::MAX,
            },
            r is Err <==> (node_off(bvhs@, bvhs@.len() as int) > u32::MAX || face_off(
                bvhs@,
                bvhs@.len() as int,
            ) > u32::MAX || vert_off(bvhs@, bvhs@.len() as int) > u32::MAX || norm_off(
                bvhs@,
                bvhs@.len() as int,
            ) > u32::MAX),
    {
        let n = bvhs.len();
        // First pass: check that every merged buffer stays addressable.
        let mut tn: u64 = 0;
        let mut tf: u64 = 0;
        let mut tv: u64 = 0;
        let mut tm: u64 = 0;
        let mut m: usize = 0;
        while m < n
            invariant
                0 <= m <= n,
                n == bvhs@.len(),
                tn as int == node_off(bvhs@, m as int),
                tf as int == face_off(bvhs@, m as int),
                tv as int == vert_off(bvhs@, m as int),
                tm as int == norm_off(bvhs@, m as int),
                tn <= u32::MAX as u64,
                tf <= u32::MAX as u64,
                tv <= u32::MAX as u64,
                tm <= u32::MAX as u64,
            decreases n - m,
        {
            let bn = bvhs[m].nodes.len() as u64;
            let bf = bvhs[m].tri_faces.len() as u64;
            let bv = bvhs[m].tri_positions.len() as u64;
            let bm = bvhs[m].tri_normals.len() as u64;
            if bn > u32::MAX as u64 - tn || bf > u32::MAX as u64 - tf || bv > u32::MAX as u64 - tv
                || bm > u32::MAX as u64 - tm {
                proof {
                    lemma_offs_monotone(bvhs@, m as int + 1, bvhs@.len() as int);
                }
                return Err(PackError::TooLarge);
            }
            tn = tn + bn;
            tf = tf + bf;
            tv = tv + bv;
            tm = tm + bm;
            m = m + 1;
        }
        // Second pass: append everything with the running offsets applied.
        let mut nodes: Vec<BVHNode> = Vec::new();
        let mut roots: Vec<u32> = Vec::new();
        let mut tri_positions: Vec<Vec3> = Vec::new();
        let mut tri_normals: Vec<Vec3> = Vec::new();
        let mut tri_faces: Vec<Face> = Vec::new();
        let mut m2: usize = 0;
        while m2 < n
            invariant
                0 <= m2 <= n,
                n == bvhs@.len(),
                forall|i: int| 0 <= i < bvhs@.len() ==> (#[trigger] bvhs@[i]).wf(),
                node_off(bvhs@, n as int) <= u32::MAX,
                face_off(bvhs@, n as int) <= u32::MAX,
                vert_off(bvhs@, n as int) <= u32::MAX,
                norm_off(bvhs@, n as int) <= u32::MAX,
                roots@.len() == m2,
                forall|i: int| 0 <= i < m2 ==> #[trigger] roots@[i] == node_off(bvhs@, i),
                nodes@.len() == node_off(bvhs@, m2 as int),
                forall|i: int, j: int|
                    0 <= i < m2 && 0 <= j < bvhs@[i].nodes@.len() ==> #[trigger] nodes@[node_off(
                        bvhs@,
                        i,
                    ) + j] == offset_node(bvhs@[i].nodes@[j], face_off(bvhs@, i), node_off(
                        bvhs@,
                        i,
                    )),
                tri_positions@.len() == vert_off(bvhs@, m2 as int),
                forall|i: int, j: int|
                    0 <= i < m2 && 0 <= j < bvhs@[i].tri_positions@.len()
                        ==> #[trigger] tri_positions@[vert_off(bvhs@, i) + j]
                        == bvhs@[i].tri_positions@[j],
                tri_normals@.len() == norm_off(bvhs@, m2 as int),
                forall|i: int, j: int|
                    0 <= i < m2 && 0 <= j < bvhs@[i].tri_normals@.len()
                        ==> #[trigger] tri_normals@[norm_off(bvhs@, i) + j]
                        == bvhs@[i].tri_normals@[j],
                tri_faces@.len() == face_off(bvhs@, m2 as int),
                forall|i: int, j: int|
                    0 <= i < m2 && 0 <= j < bvhs@[i].tri_faces@.len() ==> #[trigger] tri_faces@[
                        face_off(bvhs@, i) + j] == offset_face(bvhs@[i].tri_faces@[j], vert_off(
                        bvhs@,
                        i,
                    )),
            decreases n - m2,
        {
            proof {
                lemma_offs_monotone(bvhs@, m2 as int, m2 as int);
                lemma_offs_monotone(bvhs@, m2 as int + 1, n as int);
            }
            let noff = nodes.len();
            let foff = tri_faces.len();
            let voff = tri_positions.len();
            let b = &bvhs[m2];
            roots.push(noff as u32);
            let ghost nodes_snap = nodes@;
            let ghost positions_snap = tri_positions@;
            let ghost normals_snap = tri_normals@;
            let ghost faces_snap = tri_faces@;
            let bn = b.nodes.len();
            let mut j: usize = 0;
            while j < bn
                invariant
                    0 <= j <= bn,
                    0 <= m2 < bvhs@.len(),
                    bn == bvhs@[m2 as int].nodes@.len(),
                    *b == bvhs@[m2 as int],
                    bvhs@[m2 as int].wf(),
                    noff as int == node_off(bvhs@, m2 as int),
                    foff as int == face_off(bvhs@, m2 as int),
                    node_off(bvhs@, m2 as int + 1) <= u32::MAX,
                    face_off(bvhs@, m2 as int + 1) <= u32::MAX,
                    nodes@.len() == noff + j,
                    forall|i: int| 0 <= i < noff ==> #[trigger] nodes@[i] == nodes_snap[i],
                    forall|i: int|
                        0 <= i < j ==> #[trigger] nodes@[noff + i] == offset_node(
                            bvhs@[m2 as int].nodes@[i],
                            foff as int,
                            noff as int,
                        ),
                decreases bn - j,
            {
                let nd = b.nodes[j];
                proof {
                    let bb = bvhs@[m2 as int];
                    assert(node_ok(
                        bb.nodes@,
                        crate::blas::tri_elements(bb.tri_positions@, bb.tri_faces@),
                        j as int,
                        crate::blas::BLAS_LEAF_THRESHOLD as int,
                    ));
                    assert(in_subtree(bb.nodes@, 0, j as int));
                    lemma_skip_bounded(bb.nodes@, 0, bb.nodes@.len() as int, j as int);
                }
                nodes.push(
                    BVHNode {
                        bounds: nd.bounds,
                        left: nd.left + noff,
                        right: nd.right + noff,
                        skip: nd.skip + noff,
                        is_leaf: nd.is_leaf,
                        start: nd.start + foff,
                        end: nd.end + foff,
                    },
                );
                j = j + 1;
            }
            let bv = b.tri_positions.len();
            let mut j2: usize = 0;
            while j2 < bv
                invariant
                    0 <= j2 <= bv,
                    0 <= m2 < bvhs@.len(),
                    bv == bvhs@[m2 as int].tri_positions@.len(),
                    *b == bvhs@[m2 as int],
                    voff as int == vert_off(bvhs@, m2 as int),
                    vert_off(bvhs@, m2 as int + 1) <= u32::MAX,
                    tri_positions@.len() == voff + j2,
                    forall|i: int|
                        0 <= i < voff ==> #[trigger] tri_positions@[i] == positions_snap[i],
                    forall|i: int|
                        0 <= i < j2 ==> #[trigger] tri_positions@[voff + i]
                            == bvhs@[m2 as int].tri_positions@[i],
                decreases bv - j2,
            {
                tri_positions.push(b.tri_positions[j2]);
                j2 = j2 + 1;
            }
            let bm = b.tri_normals.len();
            let moff = tri_normals.len();
            let mut j3: usize = 0;
            while j3 < bm
                invariant
                    0 <= j3 <= bm,
                    0 <= m2 < bvhs@.len(),
                    bm == bvhs@[m2 as int].tri_normals@.len(),
                    *b == bvhs@[m2 as int],
                    moff as int == norm_off(bvhs@, m2 as int),
                    norm_off(bvhs@, m2 as int + 1) <= u32::MAX,
                    tri_normals@.len() == moff + j3,
                    forall|i: int|
                        0 <= i < moff ==> #[trigger] tri_normals@[i] == normals_snap[i],
                    forall|i: int|
                        0 <= i < j3 ==> #[trigger] tri_normals@[moff + i]
                            == bvhs@[m2 as int].tri_normals@[i],
                decreases bm - j3,
            {
                tri_normals.push(b.tri_normals[j3]);
                j3 = j3 + 1;
            }
            let bf = b.tri_faces.len();
            let mut j4: usize = 0;
            while j4 < bf
                invariant
                    0 <= j4 <= bf,
                    0 <= m2 < bvhs@.len(),
                    bf == bvhs@[m2 as int].tri_faces@.len(),
                    *b == bvhs@[m2 as int],
                    bvhs@[m2 as int].wf(),
                    voff as int == vert_off(bvhs@, m2 as int),
                    foff as int == face_off(bvhs@, m2 as int),
                    vert_off(bvhs@, m2 as int + 1) <= u32::MAX,
                    face_off(bvhs@, m2 as int + 1) <= u32::MAX,
                    tri_faces@.len() == foff + j4,
                    forall|i: int| 0 <= i < foff ==> #[trigger] tri_faces@[i] == faces_snap[i],
                    forall|i: int|
                        0 <= i < j4 ==> #[trigger] tri_faces@[foff + i] == offset_face(
                            bvhs@[m2 as int].tri_faces@[i],
                            voff as int,
                        ),
                decreases bf - j4,
            {
                let f = b.tri_faces[j4];
                proof {
                    assert(crate::mesh::faces_valid(
                        bvhs@[m2 as int].tri_faces@,
                        bvhs@[m2 as int].tri_positions@.len() as int,
                    ));
                    assert(bvhs@[m2 as int].tri_faces@[j4 as int].a
                        < bvhs@[m2 as int].tri_positions@.len());
                }
                tri_faces.push(
                    Face { a: f.a + voff as u32, b: f.b + voff as u32, c: f.c + voff as u32 },
                );
                j4 = j4 + 1;
            }
            proof {
                assert forall|i: int, j5: int|
                    0 <= i < m2 as int + 1 && 0 <= j5 < bvhs@[i].nodes@.len() implies #[trigger] nodes@[
                    node_off(bvhs@, i) + j5] == offset_node(
                    bvhs@[i].nodes@[j5],
                    face_off(bvhs@, i),
                    node_off(bvhs@, i),
                ) by {
                    if i < m2 as int {
                        lemma_offs_monotone(bvhs@, i + 1, m2 as int);
                        lemma_offs_monotone(bvhs@, i, i);
                        assert(nodes_snap[node_off(bvhs@, i) + j5] == offset_node(
                            bvhs@[i].nodes@[j5],
                            face_off(bvhs@, i),
                            node_off(bvhs@, i),
                        ));
                    }
                }
                assert forall|i: int, j5: int|
                    0 <= i < m2 as int + 1 && 0 <= j5 < bvhs@[i].tri_positions@.len()
                    implies #[trigger] tri_positions@[vert_off(bvhs@, i) + j5]
                    == bvhs@[i].tri_positions@[j5] by {
                    if i < m2 as int {
                        lemma_offs_monotone(bvhs@, i + 1, m2 as int);
                        lemma_offs_monotone(bvhs@, i, i);
                        assert(positions_snap[vert_off(bvhs@, i) + j5]
                            == bvhs@[i].tri_positions@[j5]);
                    }
                }
                assert forall|i: int, j5: int|
                    0 <= i < m2 as int + 1 && 0 <= j5 < bvhs@[i].tri_normals@.len()
                    implies #[trigger] tri_normals@[norm_off(bvhs@, i) + j5]
                    == bvhs@[i].tri_normals@[j5] by {
                    if i < m2 as int {
                        lemma_offs_monotone(bvhs@, i + 1, m2 as int);
                        lemma_offs_monotone(bvhs@, i, i);
                        assert(normals_snap[norm_off(bvhs@, i) + j5]
                            == bvhs@[i].tri_normals@[j5]);
                    }
                }
                assert forall|i: int, j5: int|
                    0 <= i < m2 as int + 1 && 0 <= j5 < bvhs@[i].tri_faces@.len()
                    implies #[trigger] tri_faces@[face_off(bvhs@, i) + j5] == offset_face(
                    bvhs@[i].tri_faces@[j5],
                    vert_off(bvhs@, i),
                ) by {
                    if i < m2 as int {
                        lemma_offs_monotone(bvhs@, i + 1, m2 as int);
                        lemma_offs_monotone(bvhs@, i, i);
                        assert(faces_snap[face_off(bvhs@, i) + j5] == offset_face(
                            bvhs@[i].tri_faces@[j5],
                            vert_off(bvhs@, i),
                        ));
                    }
                }
            }
            m2 = m2 + 1;
        }
        Ok(BLASData { nodes, roots, tri_positions, tri_normals, tri_faces })
    }
}


/// Merge offset correctness: every face index in the merged face buffer,
/// after subtracting its mesh's vertex offset, is a valid index into that
/// mesh's own un-merged vertex array.
pub proof fn lemma_merge_offset_correct(d: BLASData, bvhs: Seq<BLAS>, m: int, j: int)
    requires
        blas_data_ok(d, bvhs),
        forall|i: int| 0 <= i < bvhs.len() ==> (#[trigger] bvhs[i]).wf(),
        vert_off(bvhs, bvhs.len() as int) <= u32::MAX,
        0 <= m < bvhs.len(),
        0 <= j < bvhs[m].tri_faces@.len(),
    ensures
        ({
            let f = d.tri_faces@[face_off(bvhs, m) + j];
            &&& vert_off(bvhs, m) <= f.a && f.a - vert_off(bvhs, m) < bvhs[m].tri_positions@.len()
            &&& vert_off(bvhs, m) <= f.b && f.b - vert_off(bvhs, m) < bvhs[m].tri_positions@.len()
            &&& vert_off(bvhs, m) <= f.c && f.c - vert_off(bvhs, m) < bvhs[m].tri_positions@.len()
        }),
{
    assert(bvhs[m].wf());
    assert(crate::mesh::faces_valid(bvhs[m].tri_faces@, bvhs[m].tri_positions@.len() as int));
    let f0 = bvhs[m].tri_faces@[j];
    assert(f0.a < bvhs[m].tri_positions@.len() && f0.b < bvhs[m].tri_positions@.len() && f0.c
        < bvhs[m].tri_positions@.len());
    assert(d.tri_faces@[face_off(bvhs, m) + j] == offset_face(f0, vert_off(bvhs, m)));
    lemma_offs_monotone(bvhs, m, m);
    lemma_offs_monotone(bvhs, m + 1, bvhs.len() as int);
}

/// The scene hierarchy packed for GPU binding: the node records, the
/// parallel instance-id array, and the per-node box records for software
/// re-testing, all as flat word buffers.
pub struct TLASData {
    pub nodes: Vec<u32>,
    pub instance_ids: Vec<u32>,
    pub aabbs: Vec<u32>,
}

impl TLASData {
    /// Encode a built scene hierarchy: one 16-word record per node (the
    /// skip index in the `right` slot), one id word per element, one
    /// 8-word box record per element. Fails only when an index outgrows
    /// the 32-bit record width.
    pub fn new(tlas: &TLAS) -> (r: Result<TLASData, PackError>)
        requires
            tlas.wf(),
        ensures
            match r {
                Ok(d) => {
                    &&& d.nodes@.len() == 16 * tlas.nodes@.len()
                    &&& forall|j: int|
                        0 <= j < tlas.nodes@.len() ==> #[trigger] d.nodes@.subrange(
                            16 * j,
                            16 * j + 16,
                        ) == node_words(spec_node_gpu(tlas.nodes@[j]))
                    &&& d.instance_ids@.len() == tlas.instance_ids@.len()
                    &&& forall|k: int|
                        0 <= k < tlas.instance_ids@.len() ==> #[trigger] d.instance_ids@[k]
                            == tlas.instance_ids@[k] as u32
                    &&& d.aabbs@.len() == 8 * tlas.aabbs@.len()
                    &&& forall|k: int|
                        0 <= k < tlas.aabbs@.len() ==> #[trigger] d.aabbs@.subrange(
                            8 * k,
                            8 * k + 8,
                        ) == aabb_words(tlas.aabbs@[k])
                },
                Err(PackError::TooLarge) => tlas.nodes@.len() > u32::MAX
                    || tlas.aabbs@.len() > u32::MAX || exists|k: int|
                    0 <= k < tlas.instance_ids@.len() && #[trigger] tlas.instance_ids@[k]
                        > u32::MAX,
            },
            r is Err <==> (tlas.nodes@.len() > u32::MAX || tlas.aabbs@.len() > u32::MAX
                || exists|k: int|
                0 <= k < tlas.instance_ids@.len() && #[trigger] tlas.instance_ids@[k]
                    > u32::MAX),
    {
        let nnodes = tlas.nodes.len();
        let nelems = tlas.instance_ids.len();
        if nnodes as u64 > u32::MAX as u64 || nelems as u64 > u32::MAX as u64 {
            return Err(PackError::TooLarge);
        }
        let mut instance_ids: Vec<u32> = Vec::new();
        let mut k: usize = 0;
        while k < nelems
            invariant
                0 <= k <= nelems,
                nelems == tlas.instance_ids@.len(),
                instance_ids@.len() == k,
                forall|i: int| 0 <= i < k ==> #[trigger] tlas.instance_ids@[i] <= u32::MAX,
                forall|i: int|
                    0 <= i < k ==> #[trigger] instance_ids@[i] == tlas.instance_ids@[i] as u32,
            decreases nelems - k,
        {
            let id = tlas.instance_ids[k];
            if id as u64 > u32::MAX as u64 {
                return Err(PackError::TooLarge);
            }
            instance_ids.push(id as u32);
            k = k + 1;
        }
        let mut nodes: Vec<u32> = Vec::new();
        let mut j: usize = 0;
        while j < nnodes
            invariant
                0 <= j <= nnodes,
                nnodes == tlas.nodes@.len(),
                tlas.wf(),
                nnodes <= u32::MAX,
                nelems == tlas.instance_ids@.len(),
                nelems == tlas.aabbs@.len(),
                nelems <= u32::MAX,
                nodes@.len() == 16 * j,
                forall|i: int|
                    0 <= i < j ==> #[trigger] nodes@.subrange(16 * i, 16 * i + 16) == node_words(
                        spec_node_gpu(tlas.nodes@[i]),
                    ),
            decreases nnodes - j,
        {
            let ghost pre = nodes@;
            let nd = &tlas.nodes[j];
            proof {
                assert(node_ok(
                    tlas.nodes@,
                    crate::tlas::tlas_elements(tlas.aabbs@, tlas.instance_ids@),
                    j as int,
                    crate::tlas::TLAS_LEAF_THRESHOLD as int,
                ));
                assert(in_subtree(tlas.nodes@, 0, j as int));
                lemma_skip_bounded(tlas.nodes@, 0, tlas.nodes@.len() as int, j as int);
            }
            let g = node_gpu(nd);
            encode_node(&g, &mut nodes);
            proof {
                assert forall|i: int|
                    0 <= i < j as int + 1 implies #[trigger] nodes@.subrange(16 * i, 16 * i + 16)
                    == node_words(spec_node_gpu(tlas.nodes@[i])) by {
                    if i < j as int {
                        assert(pre.subrange(16 * i, 16 * i + 16) == node_words(
                            spec_node_gpu(tlas.nodes@[i]),
                        ));
                        assert(nodes@.subrange(16 * i, 16 * i + 16) =~= pre.subrange(
                            16 * i,
                            16 * i + 16,
                        ));
                    } else {
                        assert(nodes@.subrange(16 * i, 16 * i + 16) =~= node_words(g));
                    }
                }
            }
            j = j + 1;
        }
        let mut aabbs: Vec<u32> = Vec::new();
        let mut k2: usize = 0;
        while k2 < nelems
            invariant
                0 <= k2 <= nelems,
                nelems == tlas.aabbs@.len(),
                aabbs@.len() == 8 * k2,
                forall|i: int|
                    0 <= i < k2 ==> #[trigger] aabbs@.subrange(8 * i, 8 * i + 8) == aabb_words(
                        tlas.aabbs@[i],
                    ),
            decreases nelems - k2,
        {
            let ghost pre = aabbs@;
            let bb = tlas.aabbs[k2];
            encode_aabb(&bb, &mut aabbs);
            proof {
                assert forall|i: int|
                    0 <= i < k2 as int + 1 implies #[trigger] aabbs@.subrange(8 * i, 8 * i + 8)
                    == aabb_words(tlas.aabbs@[i]) by {
                    if i < k2 as int {
                        assert(pre.subrange(8 * i, 8 * i + 8) == aabb_words(tlas.aabbs@[i]));
                        assert(aabbs@.subrange(8 * i, 8 * i + 8) =~= pre.subrange(
                            8 * i,
                            8 * i + 8,
                        ));
                    } else {
                        assert(aabbs@.subrange(8 * i, 8 * i + 8) =~= aabb_words(bb));
                    }
                }
            }
            k2 = k2 + 1;
        }
        Ok(TLASData { nodes, instance_ids, aabbs })
    }
}


/// The index of the first vertex of mesh `m` in a merged mesh list.
pub open spec fn mesh_vert_off(meshes: Seq<Mesh>, m: int) -> int
    decreases m,
{
    if m <= 0 {
        0
    } else {
        mesh_vert_off(meshes, m - 1) + meshes[m - 1].positions@.len()
    }
}

/// The index of the first normal of mesh `m` in a merged mesh list.
pub open spec fn mesh_norm_off(meshes: Seq<Mesh>, m: int) -> int
    decreases m,
{
    if m <= 0 {
        0
    } else {
        mesh_norm_off(meshes, m - 1) + meshes[m - 1].normals@.len()
    }
}

/// The index of the first face of mesh `m` in a merged mesh list.
pub open spec fn mesh_face_off(meshes: Seq<Mesh>, m: int) -> int
    decreases m,
{
    if m <= 0 {
        0
    } else {
        mesh_face_off(meshes, m - 1) + meshes[m - 1].faces@.len()
    }
}

proof fn lemma_mesh_offs_monotone(meshes: Seq<Mesh>, m1: int, m2: int)
    requires
        0 <= m1 <= m2,
    ensures
        mesh_vert_off(meshes, m1) <= mesh_vert_off(meshes, m2),
        mesh_norm_off(meshes, m1) <= mesh_norm_off(meshes, m2),
        mesh_face_off(meshes, m1) <= mesh_face_off(meshes, m2),
        mesh_vert_off(meshes, m1) >= 0,
        mesh_norm_off(meshes, m1) >= 0,
        mesh_face_off(meshes, m1) >= 0,
    decreases m2,
{
    if m2 > m1 {
        lemma_mesh_offs_monotone(meshes, m1, m2 - 1);
    } else if m2 > 0 {
        lemma_mesh_offs_monotone(meshes, 0, m2 - 1);
    }
}

/// Several meshes merged into one: positions and normals concatenated,
/// faces shifted by the running vertex offset.
pub open spec fn meshes_merged(u: Mesh, meshes: Seq<Mesh>) -> bool {
    let n = meshes.len() as int;
    &&& u.positions@.len() == mesh_vert_off(meshes, n)
    &&& forall|m: int, j: int|
        0 <= m < n && 0 <= j < meshes[m].positions@.len() ==> #[trigger] u.positions@[
            mesh_vert_off(meshes, m) + j] == meshes[m].positions@[j]
    &&& u.normals@.len() == mesh_norm_off(meshes, n)
    &&& forall|m: int, j: int|
        0 <= m < n && 0 <= j < meshes[m].normals@.len() ==> #[trigger] u.normals@[mesh_norm_off(
            meshes,
            m,
        ) + j] == meshes[m].normals@[j]
    &&& u.faces@.len() == mesh_face_off(meshes, n)
    &&& forall|m: int, j: int|
        0 <= m < n && 0 <= j < meshes[m].faces@.len() ==> #[trigger] u.faces@[mesh_face_off(
            meshes,
            m,
        ) + j] == offset_face(meshes[m].faces@[j], mesh_vert_off(meshes, m))
}

/// One mesh merged from several, for binding the whole scene's geometry
/// as single buffers.
pub struct Meshes {
    pub unified: Mesh,
}

impl Meshes {
    /// Merge the given meshes left to right. Fails only when the merged
    /// vertex array would outgrow a face's 32-bit index.
    pub fn new(meshes: &Vec<Mesh>) -> (r: Result<Meshes, PackError>)
        requires
            forall|m: int| 0 <= m < meshes@.len() ==> (#[trigger] meshes@[m]).wf(),
        ensures
            match r {
                Ok(u) => meshes_merged(u.unified, meshes@) && u.unified.wf(),
                Err(PackError::TooLarge) => mesh_vert_off(meshes@, meshes@.len() as int)
                    > u32::MAX,
            },
            r is Err <==> mesh_vert_off(meshes@, meshes@.len() as int) > u32::MAX,
    {
        let n = meshes.len();
        let mut tv: u64 = 0;
        let mut m: usize = 0;
        while m < n
            invariant
                0 <= m <= n,
                n == meshes@.len(),
                tv as int == mesh_vert_off(meshes@, m as int),
                tv <= u32::MAX as u64,
            decreases n - m,
        {
            let bv = meshes[m].positions.len() as u64;
            if bv > u32::MAX as u64 - tv {
                proof {
                    lemma_mesh_offs_monotone(meshes@, m as int + 1, meshes@.len() as int);
                }
                return Err(PackError::TooLarge);
            }
            tv = tv + bv;
            m = m + 1;
        }
        let mut positions: Vec<Vec3> = Vec::new();
        let mut normals: Vec<Vec3> = Vec::new();
        let mut faces: Vec<Face> = Vec::new();
        let mut m2: usize = 0;
        while m2 < n
            invariant
                0 <= m2 <= n,
                n == meshes@.len(),
                forall|i: int| 0 <= i < meshes@.len() ==> (#[trigger] meshes@[i]).wf(),
                mesh_vert_off(meshes@, n as int) <= u32::MAX,
                positions@.len() == mesh_vert_off(meshes@, m2 as int),
                forall|i: int, j: int|
                    0 <= i < m2 && 0 <= j < meshes@[i].positions@.len() ==> #[trigger] positions@[
                        mesh_vert_off(meshes@, i) + j] == meshes@[i].positions@[j],
                normals@.len() == mesh_norm_off(meshes@, m2 as int),
                forall|i: int, j: int|
                    0 <= i < m2 && 0 <= j < meshes@[i].normals@.len() ==> #[trigger] normals@[
                        mesh_norm_off(meshes@, i) + j] == meshes@[i].normals@[j],
                faces@.len() == mesh_face_off(meshes@, m2 as int),
                forall|i: int, j: int|
                    0 <= i < m2 && 0 <= j < meshes@[i].faces@.len() ==> #[trigger] faces@[
                        mesh_face_off(meshes@, i) + j] == offset_face(
                        meshes@[i].faces@[j],
                        mesh_vert_off(meshes@, i),
                    ),
                faces_valid(faces@, positions@.len() as int),
                normals@.len() >= positions@.len(),
            decreases n - m2,
        {
            proof {
                lemma_mesh_offs_monotone(meshes@, m2 as int + 1, n as int);
            }
            let voff = positions.len();
            let b = &meshes[m2];
            let ghost positions_snap = positions@;
            let ghost normals_snap = normals@;
            let ghost faces_snap = faces@;
            let bv = b.positions.len();
            let mut j: usize = 0;
            while j < bv
                invariant
                    0 <= j <= bv,
                    0 <= m2 < meshes@.len(),
                    *b == meshes@[m2 as int],
                    bv == meshes@[m2 as int].positions@.len(),
                    voff as int == mesh_vert_off(meshes@, m2 as int),
                    positions@.len() == voff + j,
                    forall|i: int|
                        0 <= i < voff ==> #[trigger] positions@[i] == positions_snap[i],
                    forall|i: int|
                        0 <= i < j ==> #[trigger] positions@[voff + i]
                            == meshes@[m2 as int].positions@[i],
                decreases bv - j,
            {
                positions.push(b.positions[j]);
                j = j + 1;
            }
            let bm = b.normals.len();
            let moff = normals.len();
            let mut j2: usize = 0;
            while j2 < bm
                invariant
                    0 <= j2 <= bm,
                    0 <= m2 < meshes@.len(),
                    *b == meshes@[m2 as int],
                    bm == meshes@[m2 as int].normals@.len(),
                    moff as int == mesh_norm_off(meshes@, m2 as int),
                    normals@.len() == moff + j2,
                    forall|i: int| 0 <= i < moff ==> #[trigger] normals@[i] == normals_snap[i],
                    forall|i: int|
                        0 <= i < j2 ==> #[trigger] normals@[moff + i]
                            == meshes@[m2 as int].normals@[i],
                decreases bm - j2,
            {
                normals.push(b.normals[j2]);
                j2 = j2 + 1;
            }
            let bf = b.faces.len();
            let foff = faces.len();
            let mut j3: usize = 0;
            while j3 < bf
                invariant
                    0 <= j3 <= bf,
                    0 <= m2 < meshes@.len(),
                    *b == meshes@[m2 as int],
                    meshes@[m2 as int].wf(),
                    bf == meshes@[m2 as int].faces@.len(),
                    voff as int == mesh_vert_off(meshes@, m2 as int),
                    foff as int == mesh_face_off(meshes@, m2 as int),
                    mesh_vert_off(meshes@, m2 as int + 1) <= u32::MAX,
                    faces@.len() == foff + j3,
                    forall|i: int| 0 <= i < foff ==> #[trigger] faces@[i] == faces_snap[i],
                    forall|i: int|
                        0 <= i < j3 ==> #[trigger] faces@[foff + i] == offset_face(
                            meshes@[m2 as int].faces@[i],
                            mesh_vert_off(meshes@, m2 as int),
                        ),
                decreases bf - j3,
            {
                let f = b.faces[j3];
                proof {
                    assert(faces_valid(
                        meshes@[m2 as int].faces@,
                        meshes@[m2 as int].positions@.len() as int,
                    ));
                    assert(meshes@[m2 as int].faces@[j3 as int].a
                        < meshes@[m2 as int].positions@.len());
                }
                faces.push(
                    Face { a: f.a + voff as u32, b: f.b + voff as u32, c: f.c + voff as u32 },
                );
                j3 = j3 + 1;
            }
            proof {
                assert forall|i: int, j5: int|
                    0 <= i < m2 as int + 1 && 0 <= j5 < meshes@[i].positions@.len()
                    implies #[trigger] positions@[mesh_vert_off(meshes@, i) + j5]
                    == meshes@[i].positions@[j5] by {
                    if i < m2 as int {
                        lemma_mesh_offs_monotone(meshes@, i + 1, m2 as int);
                        lemma_mesh_offs_monotone(meshes@, i, i);
                        assert(positions_snap[mesh_vert_off(meshes@, i) + j5]
                            == meshes@[i].positions@[j5]);
                    }
                }
                assert forall|i: int, j5: int|
                    0 <= i < m2 as int + 1 && 0 <= j5 < meshes@[i].normals@.len()
                    implies #[trigger] normals@[mesh_norm_off(meshes@, i) + j5]
                    == meshes@[i].normals@[j5] by {
                    if i < m2 as int {
                        lemma_mesh_offs_monotone(meshes@, i + 1, m2 as int);
                        lemma_mesh_offs_monotone(meshes@, i, i);
                        assert(normals_snap[mesh_norm_off(meshes@, i) + j5]
                            == meshes@[i].normals@[j5]);
                    }
                }
                assert forall|i: int, j5: int|
                    0 <= i < m2 as int + 1 && 0 <= j5 < meshes@[i].faces@.len()
                    implies #[trigger] faces@[mesh_face_off(meshes@, i) + j5] == offset_face(
                    meshes@[i].faces@[j5],
                    mesh_vert_off(meshes@, i),
                ) by {
                    if i < m2 as int {
                        lemma_mesh_offs_monotone(meshes@, i + 1, m2 as int);
                        lemma_mesh_offs_monotone(meshes@, i, i);
                        assert(faces_snap[mesh_face_off(meshes@, i) + j5] == offset_face(
                            meshes@[i].faces@[j5],
                            mesh_vert_off(meshes@, i),
                        ));
                    }
                }
                // The merged faces stay valid: each shifted index lands
                // inside the merged vertex range.
                assert forall|k: int| 0 <= k < faces@.len() implies (#[trigger] faces@[k]).a
                    < positions@.len() && faces@[k].b < positions@.len() && faces@[k].c
                    < positions@.len() by {
                    assert(exists|i: int|
                        0 <= i < m2 as int + 1 && #[trigger] mesh_face_off(meshes@, i) <= k
                            < mesh_face_off(meshes@, i + 1)) by {
                        lemma_mesh_face_interval(meshes@, m2 as int + 1, k);
                    }
                    let i = choose|i: int|
                        0 <= i < m2 as int + 1 && #[trigger] mesh_face_off(meshes@, i) <= k
                            < mesh_face_off(meshes@, i + 1);
                    let off = mesh_face_off(meshes@, i);
                    let j5 = k - off;
                    assert(0 <= j5 < meshes@[i].faces@.len());
                    assert(faces@[off + j5] == offset_face(
                        meshes@[i].faces@[j5],
                        mesh_vert_off(meshes@, i),
                    ));
                    assert(faces@[k] == offset_face(
                        meshes@[i].faces@[j5],
                        mesh_vert_off(meshes@, i),
                    ));
                    assert(faces_valid(
                        meshes@[i].faces@,
                        meshes@[i].positions@.len() as int,
                    ));
                    assert(meshes@[i].faces@[j5].a < meshes@[i].positions@.len());
                    assert(meshes@[i].faces@[j5].b < meshes@[i].positions@.len());
                    assert(meshes@[i].faces@[j5].c < meshes@[i].positions@.len());
                    lemma_mesh_offs_monotone(meshes@, i + 1, m2 as int + 1);
                    lemma_mesh_offs_monotone(meshes@, i, i);
                }
            }
            m2 = m2 + 1;
        }
        Ok(Meshes { unified: Mesh { positions, normals, faces } })
    }
}

/// A position in the merged face array falls in exactly one mesh's
/// segment.
proof fn lemma_mesh_face_interval(meshes: Seq<Mesh>, n: int, k: int)
    requires
        0 <= n <= meshes.len(),
        0 <= k < mesh_face_off(meshes, n),
    ensures
        exists|i: int|
            0 <= i < n && #[trigger] mesh_face_off(meshes, i) <= k < mesh_face_off(meshes, i + 1),
    decreases n,
{
    if k >= mesh_face_off(meshes, n - 1) {
        assert(mesh_face_off(meshes, n - 1) <= k < mesh_face_off(meshes, n));
    } else {
        lemma_mesh_face_interval(meshes, n - 1, k);
        let i = choose|i: int|
            0 <= i < n - 1 && #[trigger] mesh_face_off(meshes, i) <= k < mesh_face_off(
                meshes,
                i + 1,
            );
        assert(0 <= i < n && mesh_face_off(meshes, i) <= k < mesh_face_off(meshes, i + 1));
    }
}

} // verus!
