//! Bottom-level acceleration structure: a hierarchy over one mesh's
//! triangles.
//!
//! Building reorders the faces in place (the final physical face order
//! defines leaf membership); the position and normal arrays are untouched.

use vstd::prelude::*;

use crate::bvh::{
    build, in_subtree, lemma_map_values_multiset, lemma_perm_containment,
    lemma_split_only_above_threshold, appears, region_ok, skip_ok, tree_ok, BVHNode, Element,
};
use crate::geom::{div3, div3_trunc, Axis, AABB, Vec3};
use crate::mesh::{faces_valid, Face, Mesh};

verus! {

/// Leaf-size threshold used for triangle hierarchies.
pub const BLAS_LEAF_THRESHOLD: usize = 32;

/// The bounding box of a triangle: component-wise minimum and maximum of
/// its three vertices.
pub open spec fn tri_bounds(positions: Seq<Vec3>, f: Face) -> AABB {
    let p0 = positions[f.a as int];
    let p1 = positions[f.b as int];
    let p2 = positions[f.c as int];
    AABB { lb: p0.spec_min(p1).spec_min(p2), ub: p0.spec_max(p1).spec_max(p2) }
}

/// The centroid coordinate of a triangle on `axis`: the vertex sum divided
/// by three, rounded toward zero.
pub open spec fn tri_centroid(positions: Seq<Vec3>, f: Face, axis: Axis) -> int {
    div3_trunc(
        positions[f.a as int].on_axis(axis) + positions[f.b as int].on_axis(axis)
            + positions[f.c as int].on_axis(axis),
    )
}

/// The builder element a face stands for: its bounds, centroid and the
/// face itself as payload.
pub open spec fn tri_element(positions: Seq<Vec3>, f: Face) -> Element<Face> {
    Element {
        bounds: tri_bounds(positions, f),
        cx: tri_centroid(positions, f, Axis::X) as i64,
        cy: tri_centroid(positions, f, Axis::Y) as i64,
        cz: tri_centroid(positions, f, Axis::Z) as i64,
        item: f,
    }
}

/// The element sequence a face sequence stands for.
pub open spec fn tri_elements(positions: Seq<Vec3>, faces: Seq<Face>) -> Seq<Element<Face>> {
    Seq::new(faces.len(), |k: int| tri_element(positions, faces[k]))
}

fn tri_element_exec(positions: &Vec<Vec3>, f: Face) -> (el: Element<Face>)
    requires
        f.a < positions@.len(),
        f.b < positions@.len(),
        f.c < positions@.len(),
    ensures
        el == tri_element(positions@, f),
{
    let p0 = positions[f.a as usize];
    let p1 = positions[f.b as usize];
    let p2 = positions[f.c as usize];
    let lb = p0.min(p1).min(p2);
    let ub = p0.max(p1).max(p2);
    let cx = div3(p0.x as i64 + p1.x as i64 + p2.x as i64);
    let cy = div3(p0.y as i64 + p1.y as i64 + p2.y as i64);
    let cz = div3(p0.z as i64 + p1.z as i64 + p2.z as i64);
    Element { bounds: AABB { lb, ub }, cx, cy, cz, item: f }
}

/// A bottom-level acceleration structure: the node arena over one mesh's
/// triangles, plus the owned (reordered) geometry arrays.
pub struct BLAS {
    pub nodes: Vec<BVHNode>,
    pub tri_positions: Vec<Vec3>,
    pub tri_normals: Vec<Vec3>,
    pub tri_faces: Vec<Face>,
}

impl BLAS {
    /// A built structure: valid geometry, a well-formed tree over exactly
    /// the face sequence, rooted at 0, with skip links whose sentinel is
    /// the arena length.
    pub open spec fn wf(self) -> bool {
        &&& self.tri_normals@.len() >= self.tri_positions@.len()
        &&& faces_valid(self.tri_faces@, self.tri_positions@.len() as int)
        &&& self.tri_faces@.len() >= 1
        &&& self.nodes@.len() >= 1
        &&& self.nodes@[0].start == 0
        &&& self.nodes@[0].end == self.tri_faces@.len()
        &&& tree_ok(
            self.nodes@,
            tri_elements(self.tri_positions@, self.tri_faces@),
            BLAS_LEAF_THRESHOLD as int,
        )
        &&& skip_ok(self.nodes@, 0, self.nodes@.len() as int)
        &&& region_ok(self.nodes@, 0, 1)
        &&& forall|j: int| 0 <= j < self.nodes@.len() ==> in_subtree(self.nodes@, 0, j)
    }

    /// Build the hierarchy over a mesh's triangles with the standard leaf
    /// threshold. The faces come back reordered (same multiset), the
    /// positions and normals unchanged.
    pub fn new(mesh: Mesh) -> (r: BLAS)
        requires
            mesh.wf(),
            mesh.faces@.len() >= 1,
        ensures
            r.wf(),
            r.tri_positions@ == mesh.positions@,
            r.tri_normals@ == mesh.normals@,
            r.tri_faces@.len() == mesh.faces@.len(),
            r.tri_faces@.to_multiset() == mesh.faces@.to_multiset(),
    {
        let Mesh { positions, normals, faces } = mesh;
        let nfaces = faces.len();
        let mut elems: Vec<Element<Face>> = Vec::new();
        let mut k: usize = 0;
        while k < nfaces
            invariant
                0 <= k <= nfaces,
                nfaces == faces@.len(),
                faces_valid(faces@, positions@.len() as int),
                elems@ == tri_elements(positions@, faces@).take(k as int),
            decreases nfaces - k,
        {
            let f = faces[k];
            let el = tri_element_exec(&positions, f);
            elems.push(el);
            proof {
                assert(elems@ =~= tri_elements(positions@, faces@).take(k + 1));
            }
            k = k + 1;
        }
        let ghost elems0 = elems@;
        proof {
            assert(elems0 =~= tri_elements(positions@, faces@));
            assert forall|j: int| 0 <= j < elems0.len() implies (#[trigger] elems0[j]).bounds.wf()
            by {
                assert(elems0[j] == tri_element(positions@, faces@[j]));
            }
        }
        let nodes = build(&mut elems, BLAS_LEAF_THRESHOLD);
        let ghost elems1 = elems@;
        let mut tri_faces: Vec<Face> = Vec::new();
        let mut k2: usize = 0;
        let n = elems.len();
        while k2 < n
            invariant
                0 <= k2 <= n,
                n == elems@.len(),
                elems@ == elems1,
                tri_faces@ == elems1.map_values(|el: Element<Face>| el.item).take(k2 as int),
            decreases n - k2,
        {
            tri_faces.push(elems[k2].item);
            proof {
                assert(tri_faces@ =~= elems1.map_values(|el: Element<Face>| el.item).take(
                    k2 + 1,
                ));
            }
            k2 = k2 + 1;
        }
        proof {
            let item_of = |el: Element<Face>| el.item;
            assert(tri_faces@ =~= elems1.map_values(item_of));
            // Each element still describes its own payload face: the build
            // only permuted them.
            assert(elems0.subrange(0, elems0.len() as int) =~= elems0);
            assert(elems1.subrange(0, elems1.len() as int) =~= elems1);
            lemma_perm_containment(elems0, elems1, 0, elems0.len() as int);
            assert forall|j: int| 0 <= j < elems1.len() implies #[trigger] elems1[j]
                == tri_element(positions@, elems1[j].item) by {
                assert(appears(elems1[j], elems0, 0, elems0.len() as int));
                let j2 = choose|j2: int|
                    0 <= j2 < elems0.len() && elems0[j2] == elems1[j];
                assert(elems0[j2] == tri_element(positions@, faces@[j2]));
            }
            assert(elems1 =~= tri_elements(positions@, tri_faces@));
            // The face multiset is untouched.
            lemma_map_values_multiset(elems0, elems1, item_of);
            assert(elems0.map_values(item_of) =~= faces@);
            // Face validity carries over face by face.
            assert forall|j: int| 0 <= j < tri_faces@.len() implies (#[trigger] tri_faces@[j]).a
                < positions@.len() && tri_faces@[j].b < positions@.len() && tri_faces@[j].c
                < positions@.len() by {
                assert(elems1[j] == tri_element(positions@, elems1[j].item));
                assert(appears(elems1[j], elems0, 0, elems0.len() as int));
                let j2 = choose|j2: int|
                    0 <= j2 < elems0.len() && elems0[j2] == elems1[j];
                assert(faces@[j2] == elems0[j2].item);
                assert(tri_faces@[j] == faces@[j2]);
            }
            broadcast use vstd::seq_lib::group_to_multiset_ensures;
        }
        BLAS { nodes, tri_positions: positions, tri_normals: normals, tri_faces }
    }
}


/// A mesh with no more triangles than the leaf threshold builds to a
/// single root leaf covering all of them.
pub proof fn lemma_small_mesh_single_leaf(b: BLAS)
    requires
        b.wf(),
        b.tri_faces@.len() <= BLAS_LEAF_THRESHOLD,
    ensures
        b.nodes@.len() == 1,
        b.nodes@[0].is_leaf,
{
    let elems = tri_elements(b.tri_positions@, b.tri_faces@);
    lemma_split_only_above_threshold(b.nodes@, elems, BLAS_LEAF_THRESHOLD as int, 0);
    if b.nodes@.len() > 1 {
        assert(in_subtree(b.nodes@, 0, 1));
        assert(false);
    }
}

} // verus!
