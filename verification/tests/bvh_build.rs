use wavetrace::blas::BLAS;
use wavetrace::bvh::{build, leaf_order, BVHNode, Element};
use wavetrace::geom::{Vec3, AABB, FP_HALF, FP_ONE};
use wavetrace::mesh::{Face, Mesh, MeshError};
use wavetrace::tlas::{Instance, Transform, TLAS};

fn elem(x: i32, id: u32) -> Element<u32> {
    Element {
        bounds: AABB { lb: Vec3 { x, y: 0, z: 0 }, ub: Vec3 { x, y: 0, z: 0 } },
        cx: x as i64,
        cy: 0,
        cz: 0,
        item: id,
    }
}

#[test]
fn cube_mesh_shape() {
    let m = Mesh::cube();
    assert_eq!(m.positions.len(), 24);
    assert_eq!(m.normals.len(), 24);
    assert_eq!(m.faces.len(), 12);
    assert_eq!(m.positions[0], Vec3 { x: FP_HALF, y: -FP_HALF, z: -FP_HALF });
    assert_eq!(m.faces[11], Face { a: 20, b: 22, c: 23 });
}

#[test]
fn rect_mesh_shape() {
    let m = Mesh::rect();
    assert_eq!(m.positions.len(), 4);
    assert_eq!(m.faces.len(), 2);
    assert_eq!(m.faces[0], Face { a: 0, b: 1, c: 2 });
}

#[test]
fn mesh_new_rejects_short_normals() {
    let positions = vec![Vec3 { x: 0, y: 0, z: 0 }, Vec3 { x: 1, y: 0, z: 0 }, Vec3 {
        x: 0,
        y: 1,
        z: 0,
    }];
    let normals = vec![Vec3 { x: 0, y: 0, z: FP_ONE }];
    let r = Mesh::new(positions, vec![0, 1, 2], normals);
    assert_eq!(r.unwrap_err(), MeshError::MissingNormals);
}

#[test]
fn mesh_new_rejects_bad_face_index() {
    let n = Vec3 { x: 0, y: 0, z: FP_ONE };
    let positions = vec![Vec3 { x: 0, y: 0, z: 0 }, Vec3 { x: 1, y: 0, z: 0 }, Vec3 {
        x: 0,
        y: 1,
        z: 0,
    }];
    let normals = vec![n, n, n];
    let r = Mesh::new(positions, vec![0, 1, 3], normals);
    assert_eq!(r.unwrap_err(), MeshError::FaceIndexOutOfRange);
}

#[test]
fn mesh_new_drops_index_remainder() {
    let n = Vec3 { x: 0, y: 0, z: FP_ONE };
    let positions = vec![Vec3 { x: 0, y: 0, z: 0 }, Vec3 { x: 1, y: 0, z: 0 }, Vec3 {
        x: 0,
        y: 1,
        z: 0,
    }];
    let normals = vec![n, n, n];
    let m = Mesh::new(positions, vec![0, 1, 2, 2, 1], normals).unwrap();
    assert_eq!(m.faces.len(), 1);
}

// A cube built with a leaf threshold at or above its twelve triangles
// stays a single root leaf whose bounds are the unit cube.
#[test]
fn cube_blas_single_root_leaf() {
    let blas = BLAS::new(Mesh::cube());
    assert_eq!(blas.nodes.len(), 1);
    let root = &blas.nodes[0];
    assert!(root.is_leaf);
    assert_eq!(root.start, 0);
    assert_eq!(root.end, 12);
    assert_eq!(root.bounds.lb, Vec3 { x: -FP_HALF, y: -FP_HALF, z: -FP_HALF });
    assert_eq!(root.bounds.ub, Vec3 { x: FP_HALF, y: FP_HALF, z: FP_HALF });
    // The root's skip is the out-of-range sentinel.
    assert_eq!(root.skip, 1);
    // The faces are a permutation of the input (here: unchanged as a set).
    assert_eq!(blas.tri_faces.len(), 12);
    for f in Mesh::cube().faces.iter() {
        assert!(blas.tri_faces.iter().filter(|g| *g == f).count() == 1);
    }
}

// Three instances of the unit cube at x-translations 0, 5 and 10 with a
// leaf threshold of two: the root bounds are the union of the three
// world boxes and the two children do not overlap on the split axis.
#[test]
fn three_cube_instances_tlas() {
    let blas = BLAS::new(Mesh::cube());
    let blases = vec![blas];
    let inst = |x: i32| Instance {
        transform: Transform::translation(Vec3 { x, y: 0, z: 0 }),
        mesh: 0,
        material: 0,
        material_idx: 0,
    };
    let instances = vec![inst(0), inst(5 * FP_ONE), inst(10 * FP_ONE)];
    let tlas = TLAS::new(&blases, &instances).unwrap();
    let root = &tlas.nodes[0];
    assert!(!root.is_leaf);
    assert_eq!(root.bounds.lb, Vec3 { x: -FP_HALF, y: -FP_HALF, z: -FP_HALF });
    assert_eq!(root.bounds.ub, Vec3 { x: 10 * FP_ONE + FP_HALF, y: FP_HALF, z: FP_HALF });
    let left = &tlas.nodes[root.left];
    let right = &tlas.nodes[root.right];
    // No overlap on the split axis (x): the left child ends before the
    // right one begins.
    assert!(left.bounds.ub.x <= right.bounds.lb.x);
    // Each instance id appears exactly once.
    let mut seen = [false; 3];
    for &id in tlas.instance_ids.iter() {
        assert!(!seen[id]);
        seen[id] = true;
    }
    assert!(seen.iter().all(|s| *s));
}

// A full split of four separated elements: children are appended after
// their parent, ranges partition, bounds are exact unions.
#[test]
fn build_four_elements() {
    let mut elems = vec![elem(0, 10), elem(100, 11), elem(200, 12), elem(300, 13)];
    let nodes = build(&mut elems, 1);
    assert_eq!(nodes.len(), 7);
    let root = &nodes[0];
    assert!(!root.is_leaf);
    assert_eq!((root.start, root.end), (0, 4));
    assert_eq!((root.left, root.right), (1, 2));
    // Children ranges partition the root's.
    assert_eq!((nodes[1].start, nodes[1].end), (0, 2));
    assert_eq!((nodes[2].start, nodes[2].end), (2, 4));
    // Bounds are consistent bottom-up.
    assert_eq!(root.bounds.lb.x, 0);
    assert_eq!(root.bounds.ub.x, 300);
    assert_eq!(nodes[1].bounds.ub.x, 100);
    assert_eq!(nodes[2].bounds.lb.x, 200);
    // Elements were kept: each payload id appears exactly once.
    let mut ids: Vec<u32> = elems.iter().map(|e| e.item).collect();
    ids.sort();
    assert_eq!(ids, vec![10, 11, 12, 13]);
}

// Skip links: the left child's skip is its right sibling, the right
// child inherits its parent's skip, the root's skip is the sentinel.
#[test]
fn skip_links_and_walk_order() {
    let mut elems = vec![elem(0, 0), elem(100, 1), elem(200, 2), elem(300, 3)];
    let nodes = build(&mut elems, 1);
    assert_eq!(nodes.len(), 7);
    assert_eq!(nodes[0].skip, 7); // root: sentinel
    assert_eq!(nodes[1].skip, 2); // left child: right sibling
    assert_eq!(nodes[2].skip, 7); // right child: parent's skip
    assert_eq!(nodes[3].skip, 4);
    assert_eq!(nodes[4].skip, 2);
    assert_eq!(nodes[5].skip, 6);
    assert_eq!(nodes[6].skip, 7);
    // The stackless walk visits every leaf exactly once, in depth-first
    // order, and terminates at the sentinel.
    let order = leaf_order(&nodes);
    assert_eq!(order, vec![3, 4, 5, 6]);
}

// The degenerate-split guard: coincident centroids cannot be
// partitioned, so the node stays a leaf larger than the threshold.
#[test]
fn degenerate_split_keeps_leaf() {
    let mut elems = vec![elem(42, 0), elem(42, 1), elem(42, 2)];
    let nodes = build(&mut elems, 1);
    assert_eq!(nodes.len(), 1);
    assert!(nodes[0].is_leaf);
    assert_eq!((nodes[0].start, nodes[0].end), (0, 3));
}

// Ties go to the right branch: a centroid exactly on the split
// coordinate is swapped to the back.
#[test]
fn tie_goes_right() {
    // Bounds [0, 100]: split coordinate 50. Centroids 0, 50, 100:
    // only the first goes left.
    let mut elems = vec![elem(0, 0), elem(50, 1), elem(100, 2)];
    let nodes = build(&mut elems, 1);
    let root = &nodes[0];
    assert!(!root.is_leaf);
    assert_eq!((nodes[root.left].start, nodes[root.left].end), (0, 1));
    assert_eq!((nodes[root.right].start, nodes[root.right].end), (1, 3));
    assert_eq!(elems[0].item, 0);
}

// The threshold stops subdivision as soon as a leaf is small enough.
#[test]
fn threshold_respected() {
    let mut elems: Vec<Element<u32>> = (0..8).map(|k| elem(100 * k, k as u32)).collect();
    let nodes = build(&mut elems, 3);
    for n in nodes.iter() {
        if n.is_leaf {
            assert!(n.end - n.start <= 3);
        }
    }
}

// Every element index lands in exactly one leaf range.
#[test]
fn leaves_partition_elements() {
    let mut elems: Vec<Element<u32>> = (0..13).map(|k| elem(37 * k, k as u32)).collect();
    let nodes = build(&mut elems, 2);
    let leaves: Vec<&BVHNode> = nodes.iter().filter(|n| n.is_leaf).collect();
    for e in 0..13usize {
        let holders = leaves.iter().filter(|n| n.start <= e && e < n.end).count();
        assert_eq!(holders, 1);
    }
}

// The stackless walk over real structures: a single-leaf hierarchy
// visits just its root; the three-instance scene visits each leaf once.
#[test]
fn walk_real_structures() {
    let blas = BLAS::new(Mesh::cube());
    assert_eq!(leaf_order(&blas.nodes), vec![0]);

    let blases = vec![blas];
    let inst = |x: i32| Instance {
        transform: Transform::translation(Vec3 { x, y: 0, z: 0 }),
        mesh: 0,
        material: 0,
        material_idx: 0,
    };
    let instances = vec![inst(0), inst(5 * FP_ONE), inst(10 * FP_ONE)];
    let tlas = TLAS::new(&blases, &instances).unwrap();
    let order = leaf_order(&tlas.nodes);
    // Every leaf exactly once, in depth-first order.
    let leaves: Vec<usize> =
        (0..tlas.nodes.len()).filter(|&j| tlas.nodes[j].is_leaf).collect();
    assert_eq!(order.len(), leaves.len());
    for j in &leaves {
        assert_eq!(order.iter().filter(|&&o| o == *j).count(), 1);
    }
}
