//! Wavefront scheduler: the per-frame state machine that drives ray
//! generation, traversal and shading as queue-to-queue compute phases.
//!
//! Each lane owns one [`Path`]; a path moves `Generated -> Extending ->
//! Shading(kind) -> {Extending | Terminated}` and is only returned to
//! `Generated` by the next frame's reset. The phases communicate through
//! the work queues: ray generation appends every active lane into the
//! extension queue; traversal drains it and sorts surviving lanes into
//! per-material queues; each material phase drains its queue and either
//! respawns the lane into the extension queue or terminates it. What the
//! GPU computes with floating-point arithmetic — ray/scene intersection
//! and material scattering — enters these functions as events
//! ([`TraceResult`], [`ScatterResult`]); the decisions taken on them are
//! verified for every possible event value.

use vstd::prelude::*;

use crate::geom::{fp_scale, imin, Vec3, FP_ONE};
use crate::queue::Queue;

verus! {

/// The material kinds, one shading queue and phase each.
#[derive(Clone, Copy, Debug, PartialEq, Eq, Structural)]
pub enum MaterialKind {
    Lambertian,
    Metallic,
    Dielectric,
    Emissive,
}

/// A ray: origin and direction, in fixed point.
#[derive(Clone, Copy, Debug, PartialEq, Eq, Structural)]
pub struct Ray {
    pub position: Vec3,
    pub direction: Vec3,
}

/// A surface hit: position and shading normal.
#[derive(Clone, Copy, Debug, PartialEq, Eq, Structural)]
pub struct Hit {
    pub position: Vec3,
    pub normal: Vec3,
}

/// The last-hit record a traversal leaves for the shading phases: the
/// hit itself, the material kind and the index into that material's
/// parameter array.
#[derive(Clone, Copy, Debug, PartialEq, Eq, Structural)]
pub struct HitData {
    pub hit: Hit,
    pub mat: MaterialKind,
    pub mat_data: u32,
}

/// Per-lane random-number-generator state, seeded by the host.
#[derive(Clone, Copy, Debug, PartialEq, Eq)]
pub struct RandomState {
    pub random_state: [u32; 4],
}

/// Where a path stands in the per-frame state machine.
#[derive(Clone, Copy, Debug, PartialEq, Eq, Structural)]
pub enum PathState {
    Generated,
    Extending,
    Shading(MaterialKind),
    Terminated,
}

/// One lane's persistent path record.
#[derive(Clone, Copy, Debug)]
pub struct Path {
    pub ray: Ray,
    pub radiance: Vec3,
    pub throughput: Vec3,
    pub state: PathState,
    pub bounces: u32,
    pub sample_id: u32,
    pub rng: RandomState,
    pub hit: HitData,
}

/// A color whose components lie in the unit range of fixed point.
pub open spec fn color_wf(c: Vec3) -> bool {
    &&& 0 <= c.x <= FP_ONE
    &&& 0 <= c.y <= FP_ONE
    &&& 0 <= c.z <= FP_ONE
}

/// A nonnegative color accumulator.
pub open spec fn color_nonneg(c: Vec3) -> bool {
    c.x >= 0 && c.y >= 0 && c.z >= 0
}

/// Component-wise fixed-point product of two unit-range colors.
pub open spec fn spec_color_mul(a: Vec3, b: Vec3) -> Vec3 {
    Vec3 {
        x: fp_scale(a.x as int * b.x as int) as i32,
        y: fp_scale(a.y as int * b.y as int) as i32,
        z: fp_scale(a.z as int * b.z as int) as i32,
    }
}

/// Component-wise saturating sum of two nonnegative colors.
pub open spec fn spec_color_sat_add(a: Vec3, b: Vec3) -> Vec3 {
    Vec3 {
        x: imin(a.x as int + b.x as int, i32::MAX as int) as i32,
        y: imin(a.y as int + b.y as int, i32::MAX as int) as i32,
        z: imin(a.z as int + b.z as int, i32::MAX as int) as i32,
    }
}

/// Multiply two unit-range colors; the result stays in unit range.
pub fn color_mul(a: Vec3, b: Vec3) -> (r: Vec3)
    requires
        color_wf(a),
        color_wf(b),
    ensures
        r == spec_color_mul(a, b),
        color_wf(r),
{
    proof {
        lemma_unit_product(a.x as int, b.x as int);
        lemma_unit_product(a.y as int, b.y as int);
        lemma_unit_product(a.z as int, b.z as int);
    }
    Vec3 {
        x: (((a.x as i64) * (b.x as i64)) / 65536) as i32,
        y: (((a.y as i64) * (b.y as i64)) / 65536) as i32,
        z: (((a.z as i64) * (b.z as i64)) / 65536) as i32,
    }
}

/// The rescaled product of unit-range factors stays in unit range.
proof fn lemma_unit_product(a: int, b: int)
    requires
        0 <= a <= FP_ONE,
        0 <= b <= FP_ONE,
    ensures
        0 <= a * b <= 0x1_0000_0000,
        fp_scale(a * b) == (a * b) / 65536,
        0 <= fp_scale(a * b) <= FP_ONE,
{
    assert(a * b <= 0x1_0000_0000) by (nonlinear_arith)
        requires
            0 <= a <= 65536,
            0 <= b <= 65536,
    ;
    assert(a * b >= 0) by (nonlinear_arith)
        requires
            0 <= a,
            0 <= b,
    ;
}

/// Add a nonnegative contribution to an accumulator, saturating at the
/// top of the range.
pub fn color_sat_add(a: Vec3, b: Vec3) -> (r: Vec3)
    requires
        color_nonneg(a),
        color_nonneg(b),
    ensures
        r == spec_color_sat_add(a, b),
        color_nonneg(r),
{
    let x: i64 = a.x as i64 + b.x as i64;
    let y: i64 = a.y as i64 + b.y as i64;
    let z: i64 = a.z as i64 + b.z as i64;
    Vec3 {
        x: if x > i32::MAX as i64 {
            i32::MAX
        } else {
            x as i32
        },
        y: if y > i32::MAX as i64 {
            i32::MAX
        } else {
            y as i32
        },
        z: if z > i32::MAX as i64 {
            i32::MAX
        } else {
            z as i32
        },
    }
}

/// What a traversal dispatch reports for one lane: the closest hit, or a
/// miss of all geometry.
#[derive(Clone, Copy, Debug)]
pub enum TraceResult {
    Hit(HitData),
    Miss,
}

/// What a material's scattering or emission model decides for one lane:
/// a continuation ray with an attenuation color, an emitted radiance
/// (the path ends at the light), or absorption.
#[derive(Clone, Copy, Debug)]
pub enum ScatterResult {
    Bounce(Ray, Vec3),
    Emit(Vec3),
    Absorb,
}

/// The fresh path ray generation writes for a lane: the camera ray, zero
/// radiance, full throughput, no bounces yet, entering `Extending`; the
/// lane's sampling identity and generator state persist.
pub open spec fn spec_fresh_path(prev: Path, ray: Ray) -> Path {
    Path {
        ray,
        radiance: Vec3 { x: 0, y: 0, z: 0 },
        throughput: Vec3 { x: FP_ONE, y: FP_ONE, z: FP_ONE },
        state: PathState::Extending,
        bounces: 0,
        ..prev
    }
}

/// The path after one traversal event: a miss accumulates the background
/// weighted by the throughput and terminates; a hit records the hit data
/// and hands the lane to the hit material's shading phase.
pub open spec fn spec_extension_step(p: Path, t: TraceResult, background: Vec3) -> Path {
    match t {
        TraceResult::Miss => Path {
            radiance: spec_color_sat_add(p.radiance, spec_color_mul(p.throughput, background)),
            state: PathState::Terminated,
            ..p
        },
        TraceResult::Hit(h) => Path { state: PathState::Shading(h.mat), hit: h, ..p },
    }
}

/// The material queue a traversal event sends the lane to, if any.
pub open spec fn spec_extension_dest(t: TraceResult) -> Option<MaterialKind> {
    match t {
        TraceResult::Miss => None,
        TraceResult::Hit(h) => Some(h.mat),
    }
}

/// Apply one traversal event to a path.
pub fn extension_step(p: Path, t: TraceResult, background: Vec3) -> (r: (
    Path,
    Option<MaterialKind>,
))
    requires
        p.state is Extending,
        color_wf(p.throughput),
        color_nonneg(p.radiance),
        color_wf(background),
    ensures
        r.0 == spec_extension_step(p, t, background),
        r.1 == spec_extension_dest(t),
        color_nonneg(r.0.radiance),
        r.0.throughput == p.throughput,
{
    match t {
        TraceResult::Miss => {
            let contribution = color_mul(p.throughput, background);
            let radiance = color_sat_add(p.radiance, contribution);
            (Path { radiance, state: PathState::Terminated, ..p }, None)
        },
        TraceResult::Hit(h) => {
            (Path { state: PathState::Shading(h.mat), hit: h, ..p }, Some(h.mat))
        },
    }
}

/// The path after one scattering event: the bounce count always
/// advances; absorption terminates; an emission adds the emitted
/// radiance weighted by the throughput and terminates; a scattered ray
/// multiplies the throughput and re-enters `Extending` — unless the
/// bounce cap is reached, which force-terminates the path regardless of
/// throughput.
pub open spec fn spec_shade_step(p: Path, s: ScatterResult, bounce_cap: u32) -> Path {
    match s {
        ScatterResult::Absorb => Path {
            bounces: (p.bounces + 1) as u32,
            state: PathState::Terminated,
            ..p
        },
        ScatterResult::Emit(emitted) => Path {
            radiance: spec_color_sat_add(p.radiance, spec_color_mul(p.throughput, emitted)),
            bounces: (p.bounces + 1) as u32,
            state: PathState::Terminated,
            ..p
        },
        ScatterResult::Bounce(ray, attenuation) => {
            let continued = Path {
                ray,
                throughput: spec_color_mul(p.throughput, attenuation),
                bounces: (p.bounces + 1) as u32,
                state: PathState::Extending,
                ..p
            };
            if p.bounces + 1 >= bounce_cap {
                Path { state: PathState::Terminated, ..continued }
            } else {
                continued
            }
        },
    }
}

/// A scattering event carries unit-range colors.
pub open spec fn scatter_wf(s: ScatterResult) -> bool {
    match s {
        ScatterResult::Bounce(_, attenuation) => color_wf(attenuation),
        ScatterResult::Emit(emitted) => color_wf(emitted),
        ScatterResult::Absorb => true,
    }
}

/// Whether a scattering event keeps the lane alive.
pub open spec fn spec_shade_continues(p: Path, s: ScatterResult, bounce_cap: u32) -> bool {
    spec_shade_step(p, s, bounce_cap).state is Extending
}

/// Apply one scattering event to a path.
pub fn shade_step(p: Path, s: ScatterResult, bounce_cap: u32) -> (r: Path)
    requires
        p.state is Shading,
        p.bounces < bounce_cap,
        color_wf(p.throughput),
        color_nonneg(p.radiance),
        scatter_wf(s),
    ensures
        r == spec_shade_step(p, s, bounce_cap),
        color_wf(r.throughput),
        color_nonneg(r.radiance),
{
    match s {
        ScatterResult::Absorb => Path {
            bounces: p.bounces + 1,
            state: PathState::Terminated,
            ..p
        },
        ScatterResult::Emit(emitted) => {
            let contribution = color_mul(p.throughput, emitted);
            let radiance = color_sat_add(p.radiance, contribution);
            Path { radiance, bounces: p.bounces + 1, state: PathState::Terminated, ..p }
        },
        ScatterResult::Bounce(ray, attenuation) => {
            let tp = color_mul(p.throughput, attenuation);
            let bounces = p.bounces + 1;
            if bounces >= bounce_cap {
                Path { ray, throughput: tp, bounces, state: PathState::Terminated, ..p }
            } else {
                Path { ray, throughput: tp, bounces, state: PathState::Extending, ..p }
            }
        },
    }
}


/// Zero the counters of every per-frame queue: the reset phase. Never
/// scheduled concurrently with a producer or consumer of these queues;
/// the fixed phase order guarantees that. On the device the reset kernel
/// routes reaped lanes to ray generation through the new-ray queue; in
/// this model [`generate_phase`] reads the path states directly, so that
/// queue only has its counters cleared here.
pub fn reset_phase(
    new_ray: &mut Queue,
    extension: &mut Queue,
    lambertian: &mut Queue,
    metallic: &mut Queue,
    dielectric: &mut Queue,
    emissive: &mut Queue,
)
    ensures
        final(new_ray).write == 0 && final(new_ray).read == 0,
        final(extension).write == 0 && final(extension).read == 0,
        final(lambertian).write == 0 && final(lambertian).read == 0,
        final(metallic).write == 0 && final(metallic).read == 0,
        final(dielectric).write == 0 && final(dielectric).read == 0,
        final(emissive).write == 0 && final(emissive).read == 0,
        final(new_ray).size == old(new_ray).size && final(new_ray).slots@ == old(new_ray).slots@,
        final(extension).size == old(extension).size && final(extension).slots@ == old(
            extension,
        ).slots@,
        final(lambertian).size == old(lambertian).size && final(lambertian).slots@ == old(
            lambertian,
        ).slots@,
        final(metallic).size == old(metallic).size && final(metallic).slots@ == old(
            metallic,
        ).slots@,
        final(dielectric).size == old(dielectric).size && final(dielectric).slots@ == old(
            dielectric,
        ).slots@,
        final(emissive).size == old(emissive).size && final(emissive).slots@ == old(
            emissive,
        ).slots@,
{
    new_ray.reset();
    extension.reset();
    lambertian.reset();
    metallic.reset();
    dielectric.reset();
    emissive.reset();
}

/// Reap finished lanes: a `Terminated` path returns to `Generated`, and
/// only here — there is no mid-frame respawn. Runs with the queue reset
/// at the head of a frame, before ray generation; the host reads the
/// finished radiance out of the path buffer beforehand.
pub fn reap_paths(paths: &mut Vec<Path>)
    ensures
        final(paths)@.len() == old(paths)@.len(),
        forall|k: int|
            0 <= k < old(paths)@.len() ==> #[trigger] final(paths)@[k] == if old(
                paths,
            )@[k].state is Terminated {
                Path { state: PathState::Generated, ..old(paths)@[k] }
            } else {
                old(paths)@[k]
            },
{
    let n = paths.len();
    let mut k: usize = 0;
    while k < n
        invariant
            0 <= k <= n,
            n == old(paths)@.len(),
            paths@.len() == n,
            forall|j: int|
                0 <= j < k ==> #[trigger] paths@[j] == if old(paths)@[j].state is Terminated {
                    Path { state: PathState::Generated, ..old(paths)@[j] }
                } else {
                    old(paths)@[j]
                },
            forall|j: int| k <= j < n ==> #[trigger] paths@[j] == old(paths)@[j],
        decreases n - k,
    {
        let p = paths[k];
        let reaped = match p.state {
            PathState::Terminated => true,
            _ => false,
        };
        if reaped {
            paths[k] = Path { state: PathState::Generated, ..p };
        }
        k = k + 1;
    }
}

/// The lane indices `0, 1, ..., n-1` as queue items.
pub open spec fn id_lanes(n: int) -> Seq<u32> {
    Seq::new(n as nat, |k: int| k as u32)
}

/// Among the first `n` lanes, those ray generation submits for
/// traversal: every lane awaiting a fresh ray (`Generated`) or still
/// mid-flight (`Extending`), in lane order.
pub open spec fn active_prefix(paths: Seq<Path>, n: int) -> Seq<u32> {
    id_lanes(n).filter(
        |lane: u32| lane < paths.len() && (paths[lane as int].state is Generated
            || paths[lane as int].state is Extending),
    )
}

/// The lanes ray generation submits for traversal, over all lanes.
pub open spec fn active_lanes(paths: Seq<Path>) -> Seq<u32> {
    active_prefix(paths, paths.len() as int)
}

proof fn lemma_active_prefix_push(paths: Seq<Path>, n: int)
    requires
        0 <= n < paths.len(),
        n < u32::MAX,
    ensures
        active_prefix(paths, n + 1) == if paths[n].state is Generated
            || paths[n].state is Extending {
            active_prefix(paths, n).push(n as u32)
        } else {
            active_prefix(paths, n)
        },
{
    reveal(Seq::filter);
    assert(id_lanes(n + 1).drop_last() =~= id_lanes(n));
    assert(id_lanes(n + 1).last() == n as u32);
}

/// Ray generation: write a fresh path for every sample slot awaiting one
/// (`Generated -> Extending`) and append it into the extension queue;
/// re-submit every lane still mid-flight, whose queue entry the frame
/// reset cleared, with its path untouched — a path persists across its
/// frame's bounce loop. Lanes in any other state are left alone.
pub fn generate_phase(paths: &mut Vec<Path>, rays: &Vec<Ray>, extension: &mut Queue)
    requires
        old(paths)@.len() == rays@.len(),
        rays@.len() <= u32::MAX,
        old(extension).wf(),
        old(extension).write == 0,
        rays@.len() <= old(extension).size,
    ensures
        final(paths)@.len() == old(paths)@.len(),
        forall|k: int|
            0 <= k < old(paths)@.len() ==> #[trigger] final(paths)@[k] == if old(
                paths,
            )@[k].state is Generated {
                spec_fresh_path(old(paths)@[k], rays@[k])
            } else {
                old(paths)@[k]
            },
        final(extension).wf(),
        final(extension).size == old(extension).size,
        final(extension).read == old(extension).read,
        final(extension).write == active_lanes(old(paths)@).len(),
        final(extension).slots@.take(active_lanes(old(paths)@).len() as int) == active_lanes(
            old(paths)@,
        ),
{
    broadcast use vstd::seq_lib::group_filter_ensures;

    let n = rays.len();
    let mut k: usize = 0;
    while k < n
        invariant
            0 <= k <= n,
            n == rays@.len(),
            n <= u32::MAX,
            paths@.len() == old(paths)@.len(),
            n == old(paths)@.len(),
            extension.wf(),
            extension.size == old(extension).size,
            extension.read == old(extension).read,
            n <= extension.size,
            extension.write == active_prefix(old(paths)@, k as int).len(),
            extension.slots@.take(extension.write as int) == active_prefix(
                old(paths)@,
                k as int,
            ),
            forall|j: int|
                0 <= j < k ==> #[trigger] paths@[j] == if old(paths)@[j].state is Generated {
                    spec_fresh_path(old(paths)@[j], rays@[j])
                } else {
                    old(paths)@[j]
                },
            forall|j: int| k <= j < n ==> paths@[j] == old(paths)@[j],
        decreases n - k,
    {
        proof {
            assert(active_prefix(old(paths)@, k as int).len() <= id_lanes(k as int).len());
        }
        let ghost slots_pre = extension.slots@;
        let ghost write_pre = extension.write;
        let prev = paths[k];
        let active = match prev.state {
            PathState::Generated => {
                paths[k] = Path {
                    ray: rays[k],
                    radiance: Vec3 { x: 0, y: 0, z: 0 },
                    throughput: Vec3 { x: FP_ONE, y: FP_ONE, z: FP_ONE },
                    state: PathState::Extending,
                    bounces: 0,
                    ..prev
                };
                true
            },
            PathState::Extending => true,
            _ => false,
        };
        if active {
            extension.append(k as u32);
        }
        proof {
            lemma_active_prefix_push(old(paths)@, k as int);
            if active {
                assert(extension.slots@.take(extension.write as int) =~= slots_pre.take(
                    write_pre as int,
                ).push(k as u32));
            }
        }
        k = k + 1;
    }
}

/// The drained lanes whose traversal event routes them to `kind`.
pub open spec fn lanes_to(drained: Seq<u32>, traces: Seq<TraceResult>, kind: MaterialKind) -> Seq<
    u32,
> {
    drained.filter(
        |lane: u32| lane < traces.len() && spec_extension_dest(traces[lane as int]) == Some(kind),
    )
}

/// The drained lanes whose scattering event keeps them alive.
pub open spec fn continuing_lanes(
    drained: Seq<u32>,
    paths: Seq<Path>,
    scatters: Seq<ScatterResult>,
    cap: u32,
) -> Seq<u32> {
    drained.filter(
        |lane: u32| lane < paths.len() && lane < scatters.len() && spec_shade_continues(
            paths[lane as int],
            scatters[lane as int],
            cap,
        ),
    )
}

/// `lane` occurs in the drained prefix.
pub open spec fn lane_drained(drained: Seq<u32>, lane: int) -> bool {
    exists|i: int| 0 <= i < drained.len() && drained[i] == lane as u32
}

proof fn lemma_lanes_to_push(drained: Seq<u32>, x: u32, traces: Seq<TraceResult>, kind: MaterialKind)
    ensures
        lanes_to(drained.push(x), traces, kind) == if x < traces.len() && spec_extension_dest(
            traces[x as int],
        ) == Some(kind) {
            lanes_to(drained, traces, kind).push(x)
        } else {
            lanes_to(drained, traces, kind)
        },
{
    reveal(Seq::filter);
    assert(drained.push(x).drop_last() =~= drained);
    assert(drained.push(x).last() == x);
}

proof fn lemma_continuing_push(
    drained: Seq<u32>,
    x: u32,
    paths: Seq<Path>,
    scatters: Seq<ScatterResult>,
    cap: u32,
)
    ensures
        continuing_lanes(drained.push(x), paths, scatters, cap) == if x < paths.len() && x
            < scatters.len() && spec_shade_continues(paths[x as int], scatters[x as int], cap) {
            continuing_lanes(drained, paths, scatters, cap).push(x)
        } else {
            continuing_lanes(drained, paths, scatters, cap)
        },
{
    reveal(Seq::filter);
    assert(drained.push(x).drop_last() =~= drained);
    assert(drained.push(x).last() == x);
}


/// Traversal phase: drain the extension queue; for each drained lane,
/// apply its traversal event and either hand it to the queue of the hit
/// material (`Extending -> Shading(kind)`) or accumulate background and
/// terminate (`Extending -> Terminated`). The extension queue's counters
/// are reset once the drain is complete, within the same phase.
pub fn extension_phase(
    paths: &mut Vec<Path>,
    traces: &Vec<TraceResult>,
    extension: &mut Queue,
    lambertian: &mut Queue,
    metallic: &mut Queue,
    dielectric: &mut Queue,
    emissive: &mut Queue,
    background: Vec3,
)
    requires
        traces@.len() == old(paths)@.len(),
        color_wf(background),
        old(extension).wf(),
        old(lambertian).wf(),
        old(metallic).wf(),
        old(dielectric).wf(),
        old(emissive).wf(),
        old(lambertian).write + old(extension).write <= old(lambertian).size,
        old(metallic).write + old(extension).write <= old(metallic).size,
        old(dielectric).write + old(extension).write <= old(dielectric).size,
        old(emissive).write + old(extension).write <= old(emissive).size,
        forall|i: int|
            0 <= i < old(extension).write ==> {
                let lane = #[trigger] old(extension).slots@[i] as int;
                &&& lane < old(paths)@.len()
                &&& old(paths)@[lane].state is Extending
                &&& color_wf(old(paths)@[lane].throughput)
                &&& color_nonneg(old(paths)@[lane].radiance)
            },
        forall|i1: int, i2: int|
            0 <= i1 < old(extension).write && 0 <= i2 < old(extension).write && i1 != i2
                ==> old(extension).slots@[i1] != old(extension).slots@[i2],
    ensures
        ({
            let drained = old(extension).slots@.take(old(extension).write as int);
            &&& final(paths)@.len() == old(paths)@.len()
            &&& forall|i: int|
                0 <= i < drained.len() ==> final(paths)@[#[trigger] drained[i] as int]
                    == spec_extension_step(
                    old(paths)@[drained[i] as int],
                    traces@[drained[i] as int],
                    background,
                )
            &&& forall|lane: int|
                0 <= lane < final(paths)@.len() && !lane_drained(drained, lane)
                    ==> final(paths)@[lane] == old(paths)@[lane]
            &&& final(extension).write == 0
            &&& final(extension).read == 0
            &&& final(extension).size == old(extension).size
            &&& final(extension).slots@ == old(extension).slots@
            &&& queue_extended(
                *old(lambertian),
                *final(lambertian),
                lanes_to(drained, traces@, MaterialKind::Lambertian),
            )
            &&& queue_extended(
                *old(metallic),
                *final(metallic),
                lanes_to(drained, traces@, MaterialKind::Metallic),
            )
            &&& queue_extended(
                *old(dielectric),
                *final(dielectric),
                lanes_to(drained, traces@, MaterialKind::Dielectric),
            )
            &&& queue_extended(
                *old(emissive),
                *final(emissive),
                lanes_to(drained, traces@, MaterialKind::Emissive),
            )
        }),
{
    broadcast use vstd::seq_lib::group_filter_ensures;

    let w = extension.write;
    let ghost drained_all = extension.slots@.take(w as int);
    let mut i: u32 = 0;
    while i < w
        invariant
            0 <= i <= w,
            traces@.len() == old(paths)@.len(),
            paths@.len() == old(paths)@.len(),
            color_wf(background),
            extension.wf(),
            *extension == *old(extension),
            w == extension.write,
            drained_all == extension.slots@.take(w as int),
            lambertian.wf(),
            metallic.wf(),
            dielectric.wf(),
            emissive.wf(),
            forall|i2: int|
                0 <= i2 < w ==> {
                    let lane = #[trigger] old(extension).slots@[i2] as int;
                    &&& lane < old(paths)@.len()
                    &&& old(paths)@[lane].state is Extending
                    &&& color_wf(old(paths)@[lane].throughput)
                    &&& color_nonneg(old(paths)@[lane].radiance)
                },
            forall|i1: int, i2: int|
                0 <= i1 < w && 0 <= i2 < w && i1 != i2 ==> extension.slots@[i1]
                    != extension.slots@[i2],
            old(lambertian).write + w <= old(lambertian).size,
            old(metallic).write + w <= old(metallic).size,
            old(dielectric).write + w <= old(dielectric).size,
            old(emissive).write + w <= old(emissive).size,
            queue_extended(
                *old(lambertian),
                *lambertian,
                lanes_to(drained_all.take(i as int), traces@, MaterialKind::Lambertian),
            ),
            queue_extended(
                *old(metallic),
                *metallic,
                lanes_to(drained_all.take(i as int), traces@, MaterialKind::Metallic),
            ),
            queue_extended(
                *old(dielectric),
                *dielectric,
                lanes_to(drained_all.take(i as int), traces@, MaterialKind::Dielectric),
            ),
            queue_extended(
                *old(emissive),
                *emissive,
                lanes_to(drained_all.take(i as int), traces@, MaterialKind::Emissive),
            ),
            forall|j: int|
                0 <= j < i ==> paths@[#[trigger] drained_all[j] as int] == spec_extension_step(
                    old(paths)@[drained_all[j] as int],
                    traces@[drained_all[j] as int],
                    background,
                ),
            forall|lane: int|
                0 <= lane < paths@.len() && !lane_drained(drained_all.take(i as int), lane)
                    ==> paths@[lane] == old(paths)@[lane],
        decreases w - i,
    {
        let lane = extension.slots[i as usize];
        proof {
            assert(old(extension).slots@[i as int] == lane);
            assert(drained_all[i as int] == lane);
            assert(!lane_drained(drained_all.take(i as int), lane as int));
        }
        let li = lane as usize;
        let p = paths[li];
        let (p2, dest) = extension_step(p, traces[li], background);
        paths[li] = p2;
        match dest {
            Some(MaterialKind::Lambertian) => {
                lambertian.append(lane);
            },
            Some(MaterialKind::Metallic) => {
                metallic.append(lane);
            },
            Some(MaterialKind::Dielectric) => {
                dielectric.append(lane);
            },
            Some(MaterialKind::Emissive) => {
                emissive.append(lane);
            },
            None => {},
        }
        proof {
            assert(drained_all.take(i as int + 1) =~= drained_all.take(i as int).push(lane));
            lemma_lanes_to_push(
                drained_all.take(i as int),
                lane,
                traces@,
                MaterialKind::Lambertian,
            );
            lemma_lanes_to_push(drained_all.take(i as int), lane, traces@, MaterialKind::Metallic);
            lemma_lanes_to_push(
                drained_all.take(i as int),
                lane,
                traces@,
                MaterialKind::Dielectric,
            );
            lemma_lanes_to_push(drained_all.take(i as int), lane, traces@, MaterialKind::Emissive);
            assert forall|lane2: int|
                0 <= lane2 < paths@.len() && !lane_drained(drained_all.take(i as int + 1), lane2)
                implies paths@[lane2] == old(paths)@[lane2] by {
                assert(!lane_drained(drained_all.take(i as int), lane2)) by {
                    if lane_drained(drained_all.take(i as int), lane2) {
                        let j = choose|j: int|
                            0 <= j < drained_all.take(i as int).len() && drained_all.take(
                                i as int,
                            )[j] == lane2 as u32;
                        assert(drained_all.take(i as int + 1)[j] == lane2 as u32);
                    }
                }
                assert(lane2 != lane as int) by {
                    assert(drained_all.take(i as int + 1)[i as int] == lane);
                }
            }
            assert forall|j: int|
                0 <= j < i as int + 1 implies paths@[#[trigger] drained_all[j] as int]
                == spec_extension_step(
                old(paths)@[drained_all[j] as int],
                traces@[drained_all[j] as int],
                background,
            ) by {
                if j < i as int {
                    assert(drained_all[j] != lane);
                }
            }
        }
        i = i + 1;
    }
    proof {
        assert(drained_all.take(w as int) =~= drained_all);
    }
    extension.reset();
}

/// The target queue took exactly `appended` at its write head: the
/// counter advanced by its length, the prior contents and everything
/// else stand.
pub open spec fn queue_extended(pre: Queue, post: Queue, appended: Seq<u32>) -> bool {
    &&& post.size == pre.size
    &&& post.read == pre.read
    &&& post.slots@.len() == pre.slots@.len()
    &&& post.write == pre.write + appended.len()
    &&& forall|k: int|
        0 <= k < appended.len() ==> #[trigger] post.slots@[pre.write + k] == appended[k]
    &&& forall|k: int|
        0 <= k < post.slots@.len() && !(pre.write <= k < pre.write + appended.len())
            ==> #[trigger] post.slots@[k] == pre.slots@[k]
}


/// One material's shading phase: drain this material's queue; for each
/// drained lane, apply its scattering event — the lane either re-enters
/// the extension queue with an attenuated throughput and continuation
/// ray (`Shading(kind) -> Extending`) or terminates by absorption or the
/// bounce cap (`Shading(kind) -> Terminated`). The material queue is
/// only read; the per-frame reset clears it.
pub fn shade_phase(
    paths: &mut Vec<Path>,
    scatters: &Vec<ScatterResult>,
    mat_queue: &Queue,
    extension: &mut Queue,
    bounce_cap: u32,
)
    requires
        scatters@.len() == old(paths)@.len(),
        mat_queue.wf(),
        old(extension).wf(),
        old(extension).write + mat_queue.write <= old(extension).size,
        forall|i: int|
            0 <= i < mat_queue.write ==> {
                let lane = #[trigger] mat_queue.slots@[i] as int;
                &&& lane < old(paths)@.len()
                &&& old(paths)@[lane].state is Shading
                &&& old(paths)@[lane].bounces < bounce_cap
                &&& color_wf(old(paths)@[lane].throughput)
                &&& color_nonneg(old(paths)@[lane].radiance)
                &&& scatter_wf(scatters@[lane])
            },
        forall|i1: int, i2: int|
            0 <= i1 < mat_queue.write && 0 <= i2 < mat_queue.write && i1 != i2
                ==> mat_queue.slots@[i1] != mat_queue.slots@[i2],
    ensures
        ({
            let drained = mat_queue.slots@.take(mat_queue.write as int);
            &&& final(paths)@.len() == old(paths)@.len()
            &&& forall|i: int|
                0 <= i < drained.len() ==> final(paths)@[#[trigger] drained[i] as int]
                    == spec_shade_step(
                    old(paths)@[drained[i] as int],
                    scatters@[drained[i] as int],
                    bounce_cap,
                )
            &&& forall|lane: int|
                0 <= lane < final(paths)@.len() && !lane_drained(drained, lane)
                    ==> final(paths)@[lane] == old(paths)@[lane]
            &&& queue_extended(
                *old(extension),
                *final(extension),
                continuing_lanes(drained, old(paths)@, scatters@, bounce_cap),
            )
        }),
{
    broadcast use vstd::seq_lib::group_filter_ensures;

    let w = mat_queue.write;
    let ghost drained_all = mat_queue.slots@.take(w as int);
    let mut i: u32 = 0;
    while i < w
        invariant
            0 <= i <= w,
            scatters@.len() == old(paths)@.len(),
            paths@.len() == old(paths)@.len(),
            mat_queue.wf(),
            w == mat_queue.write,
            drained_all == mat_queue.slots@.take(w as int),
            extension.wf(),
            forall|i2: int|
                0 <= i2 < w ==> {
                    let lane = #[trigger] mat_queue.slots@[i2] as int;
                    &&& lane < old(paths)@.len()
                    &&& old(paths)@[lane].state is Shading
                    &&& old(paths)@[lane].bounces < bounce_cap
                    &&& color_wf(old(paths)@[lane].throughput)
                    &&& color_nonneg(old(paths)@[lane].radiance)
                    &&& scatter_wf(scatters@[lane])
                },
            forall|i1: int, i2: int|
                0 <= i1 < w && 0 <= i2 < w && i1 != i2 ==> mat_queue.slots@[i1]
                    != mat_queue.slots@[i2],
            old(extension).write + w <= old(extension).size,
            queue_extended(
                *old(extension),
                *extension,
                continuing_lanes(drained_all.take(i as int), old(paths)@, scatters@, bounce_cap),
            ),
            forall|j: int|
                0 <= j < i ==> paths@[#[trigger] drained_all[j] as int] == spec_shade_step(
                    old(paths)@[drained_all[j] as int],
                    scatters@[drained_all[j] as int],
                    bounce_cap,
                ),
            forall|lane: int|
                0 <= lane < paths@.len() && !lane_drained(drained_all.take(i as int), lane)
                    ==> paths@[lane] == old(paths)@[lane],
        decreases w - i,
    {
        let lane = mat_queue.slots[i as usize];
        proof {
            assert(mat_queue.slots@[i as int] == lane);
            assert(drained_all[i as int] == lane);
            assert(!lane_drained(drained_all.take(i as int), lane as int));
        }
        let li = lane as usize;
        let p = paths[li];
        let p2 = shade_step(p, scatters[li], bounce_cap);
        paths[li] = p2;
        let continues = match p2.state {
            PathState::Extending => true,
            _ => false,
        };
        if continues {
            extension.append(lane);
        }
        proof {
            assert(drained_all.take(i as int + 1) =~= drained_all.take(i as int).push(lane));
            lemma_continuing_push(
                drained_all.take(i as int),
                lane,
                old(paths)@,
                scatters@,
                bounce_cap,
            );
            assert forall|lane2: int|
                0 <= lane2 < paths@.len() && !lane_drained(drained_all.take(i as int + 1), lane2)
                implies paths@[lane2] == old(paths)@[lane2] by {
                assert(!lane_drained(drained_all.take(i as int), lane2)) by {
                    if lane_drained(drained_all.take(i as int), lane2) {
                        let j = choose|j: int|
                            0 <= j < drained_all.take(i as int).len() && drained_all.take(
                                i as int,
                            )[j] == lane2 as u32;
                        assert(drained_all.take(i as int + 1)[j] == lane2 as u32);
                    }
                }
                assert(lane2 != lane as int) by {
                    assert(drained_all.take(i as int + 1)[i as int] == lane);
                }
            }
            assert forall|j: int|
                0 <= j < i as int + 1 implies paths@[#[trigger] drained_all[j] as int]
                == spec_shade_step(
                old(paths)@[drained_all[j] as int],
                scatters@[drained_all[j] as int],
                bounce_cap,
            ) by {
                if j < i as int {
                    assert(drained_all[j] != lane);
                }
            }
        }
        i = i + 1;
    }
    proof {
        assert(drained_all.take(w as int) =~= drained_all);
    }
}

/// The compute phases of one frame, in submission order. The GPU's
/// intra-queue ordering is the only barrier between them: phase `n + 1`
/// never begins before phase `n`'s writes are visible.
#[derive(Clone, Copy, Debug, PartialEq, Eq, Structural)]
pub enum PhaseId {
    /// Reset the queues and per-pixel sampling state.
    Logic,
    /// Ray generation.
    NewRay,
    /// Two-level traversal.
    Extension,
    /// Metallic shading.
    Metallic,
    /// Lambertian shading.
    Lambertian,
    /// Dielectric shading.
    Dielectric,
    /// Emissive shading.
    Emissive,
    /// Present the accumulation buffer.
    Render,
}

/// The fixed order in which one frame's command buffers are submitted:
/// reset, ray generation, traversal, then the material phases. The
/// traversal fills the material queues the shading phases drain within
/// the same submission; the continuation rays shading respawns into the
/// extension queue are traversed by the next frame — the bounce cap, not
/// any re-looping, bounds a path's life.
pub fn frame_order() -> (r: Vec<PhaseId>)
    ensures
        r@ == seq![
            PhaseId::Logic,
            PhaseId::NewRay,
            PhaseId::Extension,
            PhaseId::Metallic,
            PhaseId::Lambertian,
            PhaseId::Dielectric,
            PhaseId::Emissive,
            PhaseId::Render,
        ],
{
    let r = vec![
        PhaseId::Logic,
        PhaseId::NewRay,
        PhaseId::Extension,
        PhaseId::Metallic,
        PhaseId::Lambertian,
        PhaseId::Dielectric,
        PhaseId::Emissive,
        PhaseId::Render,
    ];
    proof {
        assert(r@ =~= seq![
            PhaseId::Logic,
            PhaseId::NewRay,
            PhaseId::Extension,
            PhaseId::Metallic,
            PhaseId::Lambertian,
            PhaseId::Dielectric,
            PhaseId::Emissive,
            PhaseId::Render,
        ]);
    }
    r
}

/// The output dimensions and lane count of a dispatch.
#[derive(Clone, Copy, Debug, PartialEq, Eq)]
pub struct Dims {
    pub dims: (u32, u32),
    pub threads: u32,
}

impl Dims {
    pub fn new(dims: (u32, u32), threads: u32) -> (r: Dims)
        ensures
            r.dims == dims,
            r.threads == threads,
    {
        Dims { dims, threads }
    }

    /// The pixel count of the output.
    pub fn size(&self) -> (r: u32)
        requires
            self.dims.0 * self.dims.1 <= u32::MAX,
        ensures
            r == self.dims.0 * self.dims.1,
    {
        self.dims.0 * self.dims.1
    }
}

} // verus!

