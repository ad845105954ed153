use wavetrace::blas::BLAS;
use wavetrace::encode::{
    decode_node, encode_node, node_gpu, pack_rgb, BVHNodeGPU,
};
use wavetrace::geom::{Vec3, AABB, FP_HALF, FP_ONE};
use wavetrace::mesh::Mesh;
use wavetrace::pack::{BLASData, Meshes, TLASData};
use wavetrace::tlas::{Instance, Transform, TLAS};

#[test]
fn pack_two_cubes() {
    let a = BLAS::new(Mesh::cube());
    let b = BLAS::new(Mesh::cube());
    let n0 = a.nodes.len();
    let bvhs = vec![a, b];
    let d = BLASData::new(&bvhs).unwrap();
    assert_eq!(d.roots.len(), 2);
    assert_eq!(d.roots[0], 0);
    assert_eq!(d.roots[1], n0 as u32);
    assert_eq!(d.tri_positions.len(), 48);
    assert_eq!(d.tri_normals.len(), 48);
    assert_eq!(d.tri_faces.len(), 24);
    assert_eq!(d.nodes.len(), 2 * n0);
    // The second mesh's node ranges and links carry the running offsets.
    assert_eq!(d.nodes[n0].start, 12);
    assert_eq!(d.nodes[n0].end, 24);
    assert_eq!(d.nodes[n0].skip, n0 + bvhs[1].nodes[0].skip);
    // Merge offset correctness: subtracting the vertex offset from any
    // face of the second mesh yields an index into its own vertex array.
    for k in 12..24 {
        let f = &d.tri_faces[k];
        assert!(f.a >= 24 && f.a - 24 < 24);
        assert!(f.b >= 24 && f.b - 24 < 24);
        assert!(f.c >= 24 && f.c - 24 < 24);
    }
    // The first mesh is stored unshifted.
    for k in 0..12 {
        assert_eq!(d.tri_faces[k], bvhs[0].tri_faces[k]);
    }
}

#[test]
fn node_record_roundtrip() {
    let g = BVHNodeGPU {
        bounds: AABB {
            lb: Vec3 { x: -FP_HALF, y: 0, z: -3 * FP_ONE },
            ub: Vec3 { x: FP_HALF, y: FP_ONE, z: 3 * FP_ONE },
        },
        left: 7,
        right: 9,
        is_leaf: 0,
        start: 4,
        end: 11,
    };
    let mut words: Vec<u32> = Vec::new();
    encode_node(&g, &mut words);
    assert_eq!(words.len(), 16);
    // 32 bytes of box, then the five index words, then padding.
    assert_eq!(words[0], (-FP_HALF) as u32);
    assert_eq!(words[3], 0);
    assert_eq!(words[8], 7);
    assert_eq!(words[9], 9);
    assert_eq!(words[10], 0);
    assert_eq!(words[11], 4);
    assert_eq!(words[12], 11);
    assert_eq!(words[15], 0);
    let g2 = decode_node(&words, 0);
    assert_eq!(g2, g);
    // Re-encoding the decoded record reproduces the words bit for bit.
    let mut words2: Vec<u32> = Vec::new();
    encode_node(&g2, &mut words2);
    assert_eq!(words2, words);
}

#[test]
fn node_gpu_moves_skip_into_right() {
    let blas = BLAS::new(Mesh::cube());
    let g = node_gpu(&blas.nodes[0]);
    // The traversal record overloads `right` with the skip index.
    assert_eq!(g.right, blas.nodes[0].skip as u32);
    assert_eq!(g.is_leaf, 1);
    assert_eq!(g.start, 0);
    assert_eq!(g.end, 12);
}

#[test]
fn tlas_data_encodes_records() {
    let blases = vec![BLAS::new(Mesh::cube())];
    let inst = |x: i32| Instance {
        transform: Transform::translation(Vec3 { x, y: 0, z: 0 }),
        mesh: 0,
        material: 0,
        material_idx: 0,
    };
    let instances = vec![inst(0), inst(5 * FP_ONE), inst(10 * FP_ONE)];
    let tlas = TLAS::new(&blases, &instances).unwrap();
    let d = TLASData::new(&tlas).unwrap();
    assert_eq!(d.nodes.len(), 16 * tlas.nodes.len());
    assert_eq!(d.instance_ids.len(), 3);
    assert_eq!(d.aabbs.len(), 24);
    // The first node record is the root, skip in the right slot.
    let g = decode_node(&d.nodes, 0);
    assert_eq!(g.bounds, tlas.nodes[0].bounds);
    assert_eq!(g.right, tlas.nodes[0].skip as u32);
    // The box records sit alongside, element by element.
    for k in 0..3usize {
        assert_eq!(d.aabbs[8 * k], tlas.aabbs[k].lb.x as u32);
        assert_eq!(d.instance_ids[k], tlas.instance_ids[k] as u32);
    }
}

#[test]
fn world_bounds_of_translated_cube() {
    let blases = vec![BLAS::new(Mesh::cube())];
    let instances = vec![Instance {
        transform: Transform::translation(Vec3 { x: 5 * FP_ONE, y: 0, z: 0 }),
        mesh: 0,
        material: 0,
        material_idx: 0,
    }];
    let tlas = TLAS::new(&blases, &instances).unwrap();
    assert_eq!(tlas.aabbs[0].lb, Vec3 { x: 5 * FP_ONE - FP_HALF, y: -FP_HALF, z: -FP_HALF });
    assert_eq!(tlas.aabbs[0].ub, Vec3 { x: 5 * FP_ONE + FP_HALF, y: FP_HALF, z: FP_HALF });
}

#[test]
fn world_bounds_of_scaled_cube() {
    // A diagonal matrix with 2.0 on each axis doubles the cube.
    let two = 2 * FP_ONE;
    let tf = Transform {
        rx: Vec3 { x: two, y: 0, z: 0 },
        ry: Vec3 { x: 0, y: two, z: 0 },
        rz: Vec3 { x: 0, y: 0, z: two },
        t: Vec3 { x: 0, y: 0, z: 0 },
    };
    let blases = vec![BLAS::new(Mesh::cube())];
    let instances = vec![Instance { transform: tf, mesh: 0, material: 0, material_idx: 0 }];
    let tlas = TLAS::new(&blases, &instances).unwrap();
    assert_eq!(tlas.aabbs[0].lb, Vec3 { x: -FP_ONE, y: -FP_ONE, z: -FP_ONE });
    assert_eq!(tlas.aabbs[0].ub, Vec3 { x: FP_ONE, y: FP_ONE, z: FP_ONE });
}

#[test]
fn pack_rgb_exact() {
    assert_eq!(pack_rgb(255, 128, 7), 255 * 65536 + 128 * 256 + 7);
    assert_eq!(pack_rgb(0, 0, 0), 0);
    assert_eq!(pack_rgb(255, 255, 255), 0x00ff_ffff);
}

#[test]
fn merge_two_meshes() {
    let meshes = vec![Mesh::cube(), Mesh::rect()];
    let u = Meshes::new(&meshes).unwrap().unified;
    assert_eq!(u.positions.len(), 28);
    assert_eq!(u.normals.len(), 28);
    assert_eq!(u.faces.len(), 14);
    // The rectangle's faces are shifted past the cube's vertices.
    assert_eq!(u.faces[12].a, 24);
    assert_eq!(u.faces[13].c, 27);
    // The cube's data sits unshifted at the front.
    assert_eq!(u.faces[0], meshes[0].faces[0]);
    assert_eq!(u.positions[24], meshes[1].positions[0]);
}

#[test]
fn tlas_rejects_unknown_mesh() {
    let blases = vec![BLAS::new(Mesh::cube())];
    let instances = vec![Instance {
        transform: Transform::identity(),
        mesh: 5,
        material: 0,
        material_idx: 0,
    }];
    assert!(matches!(
        TLAS::new(&blases, &instances),
        Err(wavetrace::tlas::TlasError::UnknownMesh)
    ));
}

#[test]
fn tlas_rejects_transform_overflow() {
    // A translation at the very top of the coordinate range pushes the
    // cube's upper corner past what fixed point can hold.
    let blases = vec![BLAS::new(Mesh::cube())];
    let instances = vec![Instance {
        transform: Transform::translation(Vec3 { x: i32::MAX, y: 0, z: 0 }),
        mesh: 0,
        material: 0,
        material_idx: 0,
    }];
    assert!(matches!(
        TLAS::new(&blases, &instances),
        Err(wavetrace::tlas::TlasError::TransformOverflow)
    ));
}
