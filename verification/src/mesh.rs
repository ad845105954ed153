//! Triangle meshes: flat position, normal and face-index arrays.
//!
//! A well-formed mesh has a normal for every position and every face index
//! in range; a malformed mesh is rejected at construction, since a corrupt
//! geometry buffer would make acceleration-structure traversal undefined.

use vstd::prelude::*;

use crate::geom::{FP_HALF, FP_NEG_HALF, FP_NEG_ONE, FP_ONE, Vec3};

verus! {

/// One triangle: three indices into the position (and normal) array.
#[derive(Clone, Copy, Debug, PartialEq, Eq, Structural)]
pub struct Face {
    pub a: u32,
    pub b: u32,
    pub c: u32,
}

/// Why a mesh was rejected at construction.
#[derive(Clone, Copy, Debug, PartialEq, Eq, Structural)]
pub enum MeshError {
    /// Fewer normals than positions: the faces could not be shaded.
    MissingNormals,
    /// A face index points past the end of the position array.
    FaceIndexOutOfRange,
}

/// Every face of `faces` indexes into `[0, nverts)`.
pub open spec fn faces_valid(faces: Seq<Face>, nverts: int) -> bool {
    forall|k: int|
        0 <= k < faces.len() ==> (#[trigger] faces[k]).a < nverts && faces[k].b < nverts
            && faces[k].c < nverts
}

/// The face triples encoded in a flat index array: consecutive chunks of
/// three, any trailing remainder dropped.
pub open spec fn faces_of_indices(indices: Seq<u32>) -> Seq<Face> {
    Seq::new(
        (indices.len() / 3) as nat,
        |k: int| Face { a: indices[3 * k], b: indices[3 * k + 1], c: indices[3 * k + 2] },
    )
}

/// A triangle mesh: positions, one normal per position (extra normals are
/// carried along), and faces as index triples.
#[derive(Clone, Debug)]
pub struct Mesh {
    pub positions: Vec<Vec3>,
    pub normals: Vec<Vec3>,
    pub faces: Vec<Face>,
}

impl Mesh {
    /// Structural validity: enough normals, and all face indices in range.
    pub open spec fn wf(self) -> bool {
        &&& self.normals@.len() >= self.positions@.len()
        &&& faces_valid(self.faces@, self.positions@.len() as int)
    }

    /// Assemble a mesh from flat arrays. The index array is cut into
    /// triples (a trailing remainder is dropped). Construction fails on a
    /// mesh with fewer normals than positions, or with a face index out of
    /// range; both would leave traversal undefined later.
    pub fn new(positions: Vec<Vec3>, indices: Vec<u32>, normals: Vec<Vec3>) -> (r: Result<
        Mesh,
        MeshError,
    >)
        ensures
            match r {
                Ok(m) => {
                    &&& m.wf()
                    &&& m.positions@ == positions@
                    &&& m.normals@ == normals@
                    &&& m.faces@ == faces_of_indices(indices@)
                },
                Err(MeshError::MissingNormals) => normals@.len() < positions@.len(),
                Err(MeshError::FaceIndexOutOfRange) => {
                    &&& normals@.len() >= positions@.len()
                    &&& !faces_valid(faces_of_indices(indices@), positions@.len() as int)
                },
            },
            r is Err <==> (normals@.len() < positions@.len() || !faces_valid(
                faces_of_indices(indices@),
                positions@.len() as int,
            )),
    {
        if normals.len() < positions.len() {
            return Err(MeshError::MissingNormals);
        }
        let nfaces = indices.len() / 3;
        let mut faces: Vec<Face> = Vec::new();
        let mut k: usize = 0;
        while k < nfaces
            invariant
                0 <= k <= nfaces,
                nfaces == indices@.len() / 3,
                indices@.len() <= usize::MAX,
                normals@.len() >= positions@.len(),
                faces@ == faces_of_indices(indices@).take(k as int),
                faces_valid(faces@, positions@.len() as int),
            decreases nfaces - k,
        {
            proof {
                vstd::arithmetic::div_mod::lemma_fundamental_div_mod(indices@.len() as int, 3);
                assert(3 * (k as int) + 2 < indices@.len());
            }
            let a = indices[3 * k];
            let b = indices[3 * k + 1];
            let c = indices[3 * k + 2];
            if a as usize >= positions.len() || b as usize >= positions.len() || c as usize
                >= positions.len() {
                proof {
                    assert(faces_of_indices(indices@)[k as int] == Face { a, b, c });
                    assert(!faces_valid(faces_of_indices(indices@), positions@.len() as int));
                }
                return Err(MeshError::FaceIndexOutOfRange);
            }
            faces.push(Face { a, b, c });
            proof {
                assert(faces@ =~= faces_of_indices(indices@).take(k + 1));
            }
            k = k + 1;
        }
        proof {
            assert(faces@ =~= faces_of_indices(indices@));
        }
        Ok(Mesh { positions, normals, faces })
    }

    /// The positions of the axis-aligned unit cube centered at the origin,
    /// four per face.
    pub open spec fn cube_positions() -> Seq<Vec3> {
        seq![
        Vec3 { x: FP_HALF, y: FP_NEG_HALF, z: FP_NEG_HALF },
        Vec3 { x: FP_HALF, y: FP_HALF, z: FP_NEG_HALF },
        Vec3 { x: FP_HALF, y: FP_HALF, z: FP_HALF },
        Vec3 { x: FP_HALF, y: FP_NEG_HALF, z: FP_HALF },
        Vec3 { x: FP_NEG_HALF, y: FP_NEG_HALF, z: FP_HALF },
        Vec3 { x: FP_NEG_HALF, y: FP_HALF, z: FP_HALF },
        Vec3 { x: FP_NEG_HALF, y: FP_HALF, z: FP_NEG_HALF },
        Vec3 { x: FP_NEG_HALF, y: FP_NEG_HALF, z: FP_NEG_HALF },
        Vec3 { x: FP_NEG_HALF, y: FP_HALF, z: FP_NEG_HALF },
        Vec3 { x: FP_NEG_HALF, y: FP_HALF, z: FP_HALF },
        Vec3 { x: FP_HALF, y: FP_HALF, z: FP_HALF },
        Vec3 { x: FP_HALF, y: FP_HALF, z: FP_NEG_HALF },
        Vec3 { x: FP_NEG_HALF, y: FP_NEG_HALF, z: FP_HALF },
        Vec3 { x: FP_NEG_HALF, y: FP_NEG_HALF, z: FP_NEG_HALF },
        Vec3 { x: FP_HALF, y: FP_NEG_HALF, z: FP_NEG_HALF },
        Vec3 { x: FP_HALF, y: FP_NEG_HALF, z: FP_HALF },
        Vec3 { x: FP_NEG_HALF, y: FP_NEG_HALF, z: FP_HALF },
        Vec3 { x: FP_HALF, y: FP_NEG_HALF, z: FP_HALF },
        Vec3 { x: FP_HALF, y: FP_HALF, z: FP_HALF },
        Vec3 { x: FP_NEG_HALF, y: FP_HALF, z: FP_HALF },
        Vec3 { x: FP_HALF, y: FP_NEG_HALF, z: FP_NEG_HALF },
        Vec3 { x: FP_NEG_HALF, y: FP_NEG_HALF, z: FP_NEG_HALF },
        Vec3 { x: FP_NEG_HALF, y: FP_HALF, z: FP_NEG_HALF },
        Vec3 { x: FP_HALF, y: FP_HALF, z: FP_NEG_HALF }
        ]
    }

    /// The per-vertex normals of the unit cube: each face's outward axis.
    pub open spec fn cube_normals() -> Seq<Vec3> {
        seq![
        Vec3 { x: FP_ONE, y: 0, z: 0 },
        Vec3 { x: FP_ONE, y: 0, z: 0 },
        Vec3 { x: FP_ONE, y: 0, z: 0 },
        Vec3 { x: FP_ONE, y: 0, z: 0 },
        Vec3 { x: FP_NEG_ONE, y: 0, z: 0 },
        Vec3 { x: FP_NEG_ONE, y: 0, z: 0 },
        Vec3 { x: FP_NEG_ONE, y: 0, z: 0 },
        Vec3 { x: FP_NEG_ONE, y: 0, z: 0 },
        Vec3 { x: 0, y: FP_ONE, z: 0 },
        Vec3 { x: 0, y: FP_ONE, z: 0 },
        Vec3 { x: 0, y: FP_ONE, z: 0 },
        Vec3 { x: 0, y: FP_ONE, z: 0 },
        Vec3 { x: 0, y: FP_NEG_ONE, z: 0 },
        Vec3 { x: 0, y: FP_NEG_ONE, z: 0 },
        Vec3 { x: 0, y: FP_NEG_ONE, z: 0 },
        Vec3 { x: 0, y: FP_NEG_ONE, z: 0 },
        Vec3 { x: 0, y: 0, z: FP_ONE },
        Vec3 { x: 0, y: 0, z: FP_ONE },
        Vec3 { x: 0, y: 0, z: FP_ONE },
        Vec3 { x: 0, y: 0, z: FP_ONE },
        Vec3 { x: 0, y: 0, z: FP_NEG_ONE },
        Vec3 { x: 0, y: 0, z: FP_NEG_ONE },
        Vec3 { x: 0, y: 0, z: FP_NEG_ONE },
        Vec3 { x: 0, y: 0, z: FP_NEG_ONE }
        ]
    }

    /// The twelve faces of the unit cube, two per side, counter-clockwise.
    pub open spec fn cube_faces() -> Seq<Face> {
        seq![
        Face { a: 0, b: 1, c: 2 },
        Face { a: 0, b: 2, c: 3 },
        Face { a: 4, b: 5, c: 6 },
        Face { a: 4, b: 6, c: 7 },
        Face { a: 8, b: 9, c: 10 },
        Face { a: 8, b: 10, c: 11 },
        Face { a: 12, b: 13, c: 14 },
        Face { a: 12, b: 14, c: 15 },
        Face { a: 16, b: 17, c: 18 },
        Face { a: 16, b: 18, c: 19 },
        Face { a: 20, b: 21, c: 22 },
        Face { a: 20, b: 22, c: 23 }
        ]
    }

    /// The unit cube: 24 vertices (four per side), 12 triangles, side 1
    /// centered at the origin.
    pub fn cube() -> (m: Mesh)
        ensures
            m.positions@ == Mesh::cube_positions(),
            m.normals@ == Mesh::cube_normals(),
            m.faces@ == Mesh::cube_faces(),
            m.wf(),
    {
        let positions = vec![
        Vec3 { x: FP_HALF, y: FP_NEG_HALF, z: FP_NEG_HALF },
        Vec3 { x: FP_HALF, y: FP_HALF, z: FP_NEG_HALF },
        Vec3 { x: FP_HALF, y: FP_HALF, z: FP_HALF },
        Vec3 { x: FP_HALF, y: FP_NEG_HALF, z: FP_HALF },
        Vec3 { x: FP_NEG_HALF, y: FP_NEG_HALF, z: FP_HALF },
        Vec3 { x: FP_NEG_HALF, y: FP_HALF, z: FP_HALF },
        Vec3 { x: FP_NEG_HALF, y: FP_HALF, z: FP_NEG_HALF },
        Vec3 { x: FP_NEG_HALF, y: FP_NEG_HALF, z: FP_NEG_HALF },
        Vec3 { x: FP_NEG_HALF, y: FP_HALF, z: FP_NEG_HALF },
        Vec3 { x: FP_NEG_HALF, y: FP_HALF, z: FP_HALF },
        Vec3 { x: FP_HALF, y: FP_HALF, z: FP_HALF },
        Vec3 { x: FP_HALF, y: FP_HALF, z: FP_NEG_HALF },
        Vec3 { x: FP_NEG_HALF, y: FP_NEG_HALF, z: FP_HALF },
        Vec3 { x: FP_NEG_HALF, y: FP_NEG_HALF, z: FP_NEG_HALF },
        Vec3 { x: FP_HALF, y: FP_NEG_HALF, z: FP_NEG_HALF },
        Vec3 { x: FP_HALF, y: FP_NEG_HALF, z: FP_HALF },
        Vec3 { x: FP_NEG_HALF, y: FP_NEG_HALF, z: FP_HALF },
        Vec3 { x: FP_HALF, y: FP_NEG_HALF, z: FP_HALF },
        Vec3 { x: FP_HALF, y: FP_HALF, z: FP_HALF },
        Vec3 { x: FP_NEG_HALF, y: FP_HALF, z: FP_HALF },
        Vec3 { x: FP_HALF, y: FP_NEG_HALF, z: FP_NEG_HALF },
        Vec3 { x: FP_NEG_HALF, y: FP_NEG_HALF, z: FP_NEG_HALF },
        Vec3 { x: FP_NEG_HALF, y: FP_HALF, z: FP_NEG_HALF },
        Vec3 { x: FP_HALF, y: FP_HALF, z: FP_NEG_HALF }
        ];
        let normals = vec![
        Vec3 { x: FP_ONE, y: 0, z: 0 },
        Vec3 { x: FP_ONE, y: 0, z: 0 },
        Vec3 { x: FP_ONE, y: 0, z: 0 },
        Vec3 { x: FP_ONE, y: 0, z: 0 },
        Vec3 { x: FP_NEG_ONE, y: 0, z: 0 },
        Vec3 { x: FP_NEG_ONE, y: 0, z: 0 },
        Vec3 { x: FP_NEG_ONE, y: 0, z: 0 },
        Vec3 { x: FP_NEG_ONE, y: 0, z: 0 },
        Vec3 { x: 0, y: FP_ONE, z: 0 },
        Vec3 { x: 0, y: FP_ONE, z: 0 },
        Vec3 { x: 0, y: FP_ONE, z: 0 },
        Vec3 { x: 0, y: FP_ONE, z: 0 },
        Vec3 { x: 0, y: FP_NEG_ONE, z: 0 },
        Vec3 { x: 0, y: FP_NEG_ONE, z: 0 },
        Vec3 { x: 0, y: FP_NEG_ONE, z: 0 },
        Vec3 { x: 0, y: FP_NEG_ONE, z: 0 },
        Vec3 { x: 0, y: 0, z: FP_ONE },
        Vec3 { x: 0, y: 0, z: FP_ONE },
        Vec3 { x: 0, y: 0, z: FP_ONE },
        Vec3 { x: 0, y: 0, z: FP_ONE },
        Vec3 { x: 0, y: 0, z: FP_NEG_ONE },
        Vec3 { x: 0, y: 0, z: FP_NEG_ONE },
        Vec3 { x: 0, y: 0, z: FP_NEG_ONE },
        Vec3 { x: 0, y: 0, z: FP_NEG_ONE }
        ];
        let faces = vec![
        Face { a: 0, b: 1, c: 2 },
        Face { a: 0, b: 2, c: 3 },
        Face { a: 4, b: 5, c: 6 },
        Face { a: 4, b: 6, c: 7 },
        Face { a: 8, b: 9, c: 10 },
        Face { a: 8, b: 10, c: 11 },
        Face { a: 12, b: 13, c: 14 },
        Face { a: 12, b: 14, c: 15 },
        Face { a: 16, b: 17, c: 18 },
        Face { a: 16, b: 18, c: 19 },
        Face { a: 20, b: 21, c: 22 },
        Face { a: 20, b: 22, c: 23 }
        ];
        let m = Mesh { positions, normals, faces };
        proof {
            assert(m.positions@ =~= Mesh::cube_positions());
            assert(m.normals@ =~= Mesh::cube_normals());
            assert(m.faces@ =~= Mesh::cube_faces());
            assert(faces_valid(m.faces@, 24));
        }
        m
    }

    /// The positions of the unit square in the plane `z = 0`.
    pub open spec fn rect_positions() -> Seq<Vec3> {
        seq![
            Vec3 { x: FP_NEG_HALF, y: FP_NEG_HALF, z: 0 },
            Vec3 { x: FP_HALF, y: FP_NEG_HALF, z: 0 },
            Vec3 { x: FP_HALF, y: FP_HALF, z: 0 },
            Vec3 { x: FP_NEG_HALF, y: FP_HALF, z: 0 },
        ]
    }

    /// A unit square facing `+z`: 4 vertices, 2 triangles.
    pub fn rect() -> (m: Mesh)
        ensures
            m.positions@ == Mesh::rect_positions(),
            m.faces@ == seq![Face { a: 0, b: 1, c: 2 }, Face { a: 0, b: 2, c: 3 }],
            m.normals@.len() == 4,
            m.wf(),
    {
        let positions = vec![
            Vec3 { x: FP_NEG_HALF, y: FP_NEG_HALF, z: 0 },
            Vec3 { x: FP_HALF, y: FP_NEG_HALF, z: 0 },
            Vec3 { x: FP_HALF, y: FP_HALF, z: 0 },
            Vec3 { x: FP_NEG_HALF, y: FP_HALF, z: 0 },
        ];
        let normals = vec![
            Vec3 { x: 0, y: 0, z: FP_ONE },
            Vec3 { x: 0, y: 0, z: FP_ONE },
            Vec3 { x: 0, y: 0, z: FP_ONE },
            Vec3 { x: 0, y: 0, z: FP_ONE },
        ];
        let faces = vec![Face { a: 0, b: 1, c: 2 }, Face { a: 0, b: 2, c: 3 }];
        let m = Mesh { positions, normals, faces };
        proof {
            assert(m.positions@ =~= Mesh::rect_positions());
            assert(m.faces@ =~= seq![Face { a: 0, b: 1, c: 2 }, Face { a: 0, b: 2, c: 3 }]);
            assert(faces_valid(m.faces@, 4));
        }
        m
    }
}

} // verus!
