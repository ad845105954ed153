use wavetrace::geom::{Vec3, FP_HALF, FP_ONE};
use wavetrace::queue::Queue;
use wavetrace::wavefront::Dims;
use wavetrace::wavefront::{
    color_mul, extension_phase, frame_order, generate_phase, reap_paths, reset_phase,
    shade_phase, Hit, HitData, MaterialKind, Path, PathState, PhaseId, RandomState, Ray,
    ScatterResult, TraceResult,
};

fn zero3() -> Vec3 {
    Vec3 { x: 0, y: 0, z: 0 }
}

fn snapshot(q: &Queue) -> Queue {
    Queue { size: q.size, read: q.read, write: q.write, slots: q.slots.clone() }
}

fn idle_path() -> Path {
    Path {
        ray: Ray { position: zero3(), direction: zero3() },
        radiance: zero3(),
        throughput: zero3(),
        state: PathState::Generated,
        bounces: 0,
        sample_id: 0,
        rng: RandomState { random_state: [1, 2, 3, 4] },
        hit: HitData {
            hit: Hit { position: zero3(), normal: zero3() },
            mat: MaterialKind::Lambertian,
            mat_data: 0,
        },
    }
}

// Queue slot uniqueness: N lanes appending one item each end with the
// counter at exactly N and N distinct slots populated.
#[test]
fn queue_slots_unique() {
    let mut q = Queue::new(8);
    assert_eq!(q.write, 0);
    for lane in [4u32, 1, 7, 2, 0] {
        q.append(lane);
    }
    assert_eq!(q.write, 5);
    assert_eq!(&q.slots[0..5], &[4, 1, 7, 2, 0]);
    // Reset zeroes the counters and leaves the buffer alone.
    q.reset();
    assert_eq!((q.read, q.write), (0, 0));
    assert_eq!(&q.slots[0..5], &[4, 1, 7, 2, 0]);
}

#[test]
fn queue_append_all() {
    let mut q = Queue::new(16);
    q.append_all(&vec![9, 8, 7]);
    q.append_all(&vec![6, 5]);
    assert_eq!(q.write, 5);
    assert_eq!(&q.slots[0..5], &[9, 8, 7, 6, 5]);
}

// Reset, ray generation, traversal, then the material phases: the
// traversal fills the queues the shading phases drain.
#[test]
fn frame_order_fixed() {
    let order = frame_order();
    assert_eq!(
        order,
        vec![
            PhaseId::Logic,
            PhaseId::NewRay,
            PhaseId::Extension,
            PhaseId::Metallic,
            PhaseId::Lambertian,
            PhaseId::Dielectric,
            PhaseId::Emissive,
            PhaseId::Render,
        ]
    );
}

#[test]
fn color_mul_exact() {
    let half = Vec3 { x: FP_HALF, y: FP_HALF, z: FP_HALF };
    let q = color_mul(half, half);
    // 0.5 * 0.5 = 0.25 in fixed point.
    assert_eq!(q, Vec3 { x: FP_ONE / 4, y: FP_ONE / 4, z: FP_ONE / 4 });
    let one = Vec3 { x: FP_ONE, y: FP_ONE, z: FP_ONE };
    assert_eq!(color_mul(one, half), half);
}

// Scenario: a single path with bounce cap 1, spawned toward a miss
// direction, accumulates only background radiance and reaches
// `Terminated` after exactly one extension dispatch.
#[test]
fn single_path_miss_terminates() {
    let mut paths = vec![idle_path()];
    let mut new_ray = Queue::new(1);
    let mut extension = Queue::new(1);
    let mut lambertian = Queue::new(1);
    let mut metallic = Queue::new(1);
    let mut dielectric = Queue::new(1);
    let mut emissive = Queue::new(1);
    let background = Vec3 { x: FP_HALF, y: FP_HALF, z: FP_ONE };

    reset_phase(
        &mut new_ray,
        &mut extension,
        &mut lambertian,
        &mut metallic,
        &mut dielectric,
        &mut emissive,
    );
    let rays = vec![Ray { position: zero3(), direction: Vec3 { x: 0, y: FP_ONE, z: 0 } }];
    generate_phase(&mut paths, &rays, &mut extension);
    assert!(matches!(paths[0].state, PathState::Extending));
    assert_eq!(paths[0].bounces, 0);
    assert_eq!(extension.write, 1);

    let traces = vec![TraceResult::Miss];
    extension_phase(
        &mut paths,
        &traces,
        &mut extension,
        &mut lambertian,
        &mut metallic,
        &mut dielectric,
        &mut emissive,
        background,
    );
    // Terminated after one dispatch; only the background entered the
    // radiance, at full throughput.
    assert!(matches!(paths[0].state, PathState::Terminated));
    assert_eq!(paths[0].radiance, background);
    // No material queue saw the lane; the extension queue was reset.
    assert_eq!(extension.write, 0);
    assert_eq!(lambertian.write, 0);
    assert_eq!(metallic.write, 0);
    assert_eq!(dielectric.write, 0);
    assert_eq!(emissive.write, 0);
}

// A hit routes the lane into the queue of the hit material.
#[test]
fn hit_routes_to_material_queue() {
    let mut paths = vec![idle_path(), idle_path()];
    let mut extension = Queue::new(2);
    let mut lambertian = Queue::new(2);
    let mut metallic = Queue::new(2);
    let mut dielectric = Queue::new(2);
    let mut emissive = Queue::new(2);
    let background = zero3();
    let rays = vec![
        Ray { position: zero3(), direction: Vec3 { x: FP_ONE, y: 0, z: 0 } },
        Ray { position: zero3(), direction: Vec3 { x: 0, y: 0, z: FP_ONE } },
    ];
    generate_phase(&mut paths, &rays, &mut extension);
    let hit = HitData {
        hit: Hit {
            position: Vec3 { x: FP_ONE, y: 0, z: 0 },
            normal: Vec3 { x: -FP_ONE, y: 0, z: 0 },
        },
        mat: MaterialKind::Metallic,
        mat_data: 3,
    };
    let traces = vec![TraceResult::Hit(hit), TraceResult::Miss];
    extension_phase(
        &mut paths,
        &traces,
        &mut extension,
        &mut lambertian,
        &mut metallic,
        &mut dielectric,
        &mut emissive,
        background,
    );
    assert!(matches!(paths[0].state, PathState::Shading(MaterialKind::Metallic)));
    assert_eq!(paths[0].hit.mat_data, 3);
    assert!(matches!(paths[1].state, PathState::Terminated));
    assert_eq!(metallic.write, 1);
    assert_eq!(metallic.slots[0], 0);
    assert_eq!(lambertian.write, 0);
}

// Shading: a scattered lane re-enters the extension queue with an
// attenuated throughput; the bounce cap force-terminates.
#[test]
fn shade_bounce_and_cap() {
    let mut paths = vec![idle_path()];
    paths[0].state = PathState::Shading(MaterialKind::Lambertian);
    paths[0].throughput = Vec3 { x: FP_ONE, y: FP_ONE, z: FP_ONE };
    paths[0].bounces = 0;
    let mut mat_queue = Queue::new(1);
    mat_queue.append(0);
    let mut extension = Queue::new(1);
    let half = Vec3 { x: FP_HALF, y: FP_HALF, z: FP_HALF };
    let scatters = vec![ScatterResult::Bounce(
        Ray { position: zero3(), direction: Vec3 { x: 0, y: FP_ONE, z: 0 } },
        half,
    )];
    // Cap 2: one bounce is allowed, the lane continues.
    shade_phase(&mut paths, &scatters, &mat_queue, &mut extension, 2);
    assert!(matches!(paths[0].state, PathState::Extending));
    assert_eq!(paths[0].bounces, 1);
    assert_eq!(paths[0].throughput, half);
    assert_eq!(extension.write, 1);
    assert_eq!(extension.slots[0], 0);

    // Cap 1: the same scatter is force-terminated by the bounce cap.
    let mut paths2 = vec![idle_path()];
    paths2[0].state = PathState::Shading(MaterialKind::Lambertian);
    paths2[0].throughput = Vec3 { x: FP_ONE, y: FP_ONE, z: FP_ONE };
    let mut extension2 = Queue::new(1);
    shade_phase(&mut paths2, &scatters, &mat_queue, &mut extension2, 1);
    assert!(matches!(paths2[0].state, PathState::Terminated));
    assert_eq!(paths2[0].bounces, 1);
    assert_eq!(extension2.write, 0);
}

// Absorption terminates without touching the extension queue.
#[test]
fn shade_absorb_terminates() {
    let mut paths = vec![idle_path()];
    paths[0].state = PathState::Shading(MaterialKind::Emissive);
    paths[0].throughput = Vec3 { x: FP_ONE, y: FP_ONE, z: FP_ONE };
    let mut mat_queue = Queue::new(1);
    mat_queue.append(0);
    let mut extension = Queue::new(1);
    let scatters = vec![ScatterResult::Absorb];
    shade_phase(&mut paths, &scatters, &mat_queue, &mut extension, 8);
    assert!(matches!(paths[0].state, PathState::Terminated));
    assert_eq!(extension.write, 0);
}

// Only the reset phase returns a terminated lane to `Generated`.
#[test]
fn reap_returns_terminated_to_generated() {
    let mut paths = vec![idle_path(), idle_path(), idle_path()];
    paths[0].state = PathState::Terminated;
    paths[1].state = PathState::Extending;
    paths[2].state = PathState::Shading(MaterialKind::Dielectric);
    reap_paths(&mut paths);
    assert!(matches!(paths[0].state, PathState::Generated));
    assert!(matches!(paths[1].state, PathState::Extending));
    assert!(matches!(paths[2].state, PathState::Shading(MaterialKind::Dielectric)));
}

#[test]
fn dims_size() {
    let d = Dims::new((512, 512), 512 * 512);
    assert_eq!(d.size(), 262144);
    assert_eq!(d.threads, 262144);
}

// Ray generation freshens only lanes awaiting a ray: a mid-flight lane
// keeps its path and is re-submitted, a terminated lane is left alone.
#[test]
fn generation_preserves_mid_flight_paths() {
    let mut paths = vec![idle_path(), idle_path(), idle_path()];
    paths[1].state = PathState::Extending;
    paths[1].bounces = 2;
    paths[1].throughput = Vec3 { x: FP_HALF, y: FP_HALF, z: FP_HALF };
    paths[2].state = PathState::Terminated;
    let mut extension = Queue::new(3);
    let ray = Ray { position: zero3(), direction: Vec3 { x: 0, y: 0, z: FP_ONE } };
    let rays = vec![ray, ray, ray];
    generate_phase(&mut paths, &rays, &mut extension);
    // Lane 0 was freshened, lane 1 kept its mid-flight record, lane 2
    // stayed terminated and out of the queue.
    assert!(matches!(paths[0].state, PathState::Extending));
    assert_eq!(paths[0].bounces, 0);
    assert!(matches!(paths[1].state, PathState::Extending));
    assert_eq!(paths[1].bounces, 2);
    assert_eq!(paths[1].throughput, Vec3 { x: FP_HALF, y: FP_HALF, z: FP_HALF });
    assert!(matches!(paths[2].state, PathState::Terminated));
    assert_eq!(extension.write, 2);
    assert_eq!(&extension.slots[0..2], &[0, 1]);
}

// An emissive material adds its emitted radiance, weighted by the
// throughput, and terminates the path.
#[test]
fn shade_emit_adds_radiance() {
    let mut paths = vec![idle_path()];
    paths[0].state = PathState::Shading(MaterialKind::Emissive);
    paths[0].throughput = Vec3 { x: FP_HALF, y: FP_HALF, z: FP_HALF };
    paths[0].radiance = Vec3 { x: FP_ONE / 4, y: 0, z: 0 };
    let mut mat_queue = Queue::new(1);
    mat_queue.append(0);
    let mut extension = Queue::new(1);
    let emitted = Vec3 { x: FP_ONE, y: FP_ONE, z: 0 };
    let scatters = vec![ScatterResult::Emit(emitted)];
    shade_phase(&mut paths, &scatters, &mat_queue, &mut extension, 8);
    assert!(matches!(paths[0].state, PathState::Terminated));
    assert_eq!(paths[0].bounces, 1);
    // radiance += throughput * emitted: (0.25 + 0.5, 0.5, 0).
    assert_eq!(
        paths[0].radiance,
        Vec3 { x: FP_ONE / 4 + FP_HALF, y: FP_HALF, z: 0 }
    );
    assert_eq!(extension.write, 0);
}

// A full frame in the fixed order: a hit is shaded within the same
// frame; the respawned ray is traversed by the next frame and the
// finished radiance holds emitted light weighted by the bounce's
// attenuation.
#[test]
fn two_frame_bounce_and_emit() {
    let mut paths = vec![idle_path()];
    let mut new_ray = Queue::new(1);
    let mut extension = Queue::new(1);
    let mut lambertian = Queue::new(1);
    let mut metallic = Queue::new(1);
    let mut dielectric = Queue::new(1);
    let mut emissive = Queue::new(1);
    let background = zero3();
    let half = Vec3 { x: FP_HALF, y: FP_HALF, z: FP_HALF };
    let white = Vec3 { x: FP_ONE, y: FP_ONE, z: FP_ONE };
    let ray = Ray { position: zero3(), direction: Vec3 { x: FP_ONE, y: 0, z: 0 } };
    let diffuse_hit = HitData {
        hit: Hit { position: ray.direction, normal: Vec3 { x: -FP_ONE, y: 0, z: 0 } },
        mat: MaterialKind::Lambertian,
        mat_data: 0,
    };
    let light_hit = HitData { mat: MaterialKind::Emissive, ..diffuse_hit };

    // Frame 1: generate, traverse into the diffuse surface, shade it and
    // respawn a continuation ray.
    reap_paths(&mut paths);
    reset_phase(
        &mut new_ray,
        &mut extension,
        &mut lambertian,
        &mut metallic,
        &mut dielectric,
        &mut emissive,
    );
    generate_phase(&mut paths, &vec![ray], &mut extension);
    extension_phase(
        &mut paths,
        &vec![TraceResult::Hit(diffuse_hit)],
        &mut extension,
        &mut lambertian,
        &mut metallic,
        &mut dielectric,
        &mut emissive,
        background,
    );
    assert_eq!(lambertian.write, 1);
    let bounce = ScatterResult::Bounce(ray, half);
    shade_phase(&mut paths, &vec![bounce], &snapshot(&lambertian), &mut extension, 4);
    assert!(matches!(paths[0].state, PathState::Extending));
    assert_eq!(paths[0].throughput, half);
    assert_eq!(extension.write, 1);

    // Frame 2: the mid-flight lane persists through reset and ray
    // generation, reaches the light, and finishes with 0.5 * emitted.
    reap_paths(&mut paths);
    reset_phase(
        &mut new_ray,
        &mut extension,
        &mut lambertian,
        &mut metallic,
        &mut dielectric,
        &mut emissive,
    );
    generate_phase(&mut paths, &vec![ray], &mut extension);
    assert_eq!(paths[0].throughput, half);
    assert_eq!(extension.write, 1);
    extension_phase(
        &mut paths,
        &vec![TraceResult::Hit(light_hit)],
        &mut extension,
        &mut lambertian,
        &mut metallic,
        &mut dielectric,
        &mut emissive,
        background,
    );
    assert_eq!(emissive.write, 1);
    shade_phase(&mut paths, &vec![ScatterResult::Emit(white)], &snapshot(&emissive), &mut extension, 4);
    assert!(matches!(paths[0].state, PathState::Terminated));
    assert_eq!(paths[0].radiance, half);
    assert_eq!(extension.write, 0);
}
