use vstd::prelude::*;
use crossbeam_channel::{Receiver, Sender};
use crate::codec::{MeshDataView, TerrainMeshData};
use crate::lod::LodLevel;
use crate::mesh_pool::{CacheUpdate, MeshPool, PoolView};
use crate::streaming::{WorldChunk, all_lod_consistent, mark_generated, process_loaded_chunk};

verus! {

/// Declares `crossbeam_channel::Receiver` so that the task system can hold
/// it; nothing is assumed of its contents.
#[verifier::external_type_specification]
#[verifier::external_body]
#[verifier::reject_recursive_types(T)]
pub struct ExReceiver<T>(Receiver<T>);

/// Declares `crossbeam_channel::Sender` so that the task system can hold it;
/// nothing is assumed of its contents.
#[verifier::external_type_specification]
#[verifier::external_body]
#[verifier::reject_recursive_types(T)]
pub struct ExSender<T>(Sender<T>);

/// A chunk whose cache files of every level have been written.
pub struct GeneratedChunkData {
    pub entity: usize,
}

/// A chunk's mesh, read back from its cache file at a level.
pub struct ChunkData {
    pub entity: usize,
    pub mesh: TerrainMeshData,
    pub lod: Option<LodLevel>,
}

/// What a worker reports back to the main loop.
pub enum BackgroundTaskResult {
    ChunkLoaded(ChunkData),
    ChunkGenerated(GeneratedChunkData),
}

/// The channel that carries worker results to the main loop: workers send on
/// clones of `sender`, the main loop drains `receiver` once per frame.
pub struct BackgroundTaskSystem {
    pub sender: Sender<BackgroundTaskResult>,
    pub receiver: Receiver<BackgroundTaskResult>,
}

/// Relies on `crossbeam_channel::unbounded`: a new connected sender and
/// receiver pair with no capacity limit.
#[verifier::external_body]
fn unbounded_channel() -> (Sender<BackgroundTaskResult>, Receiver<BackgroundTaskResult>) {
    crossbeam_channel::unbounded()
}

/// Relies on `crossbeam_channel::Receiver::try_recv`: the next waiting
/// message, or none, without blocking. What arrives depends on the workers.
#[verifier::external_body]
fn try_receive(receiver: &Receiver<BackgroundTaskResult>) -> Option<BackgroundTaskResult> {
    receiver.try_recv().ok()
}

impl BackgroundTaskSystem {
    pub fn new() -> Self {
        let (sender, receiver) = unbounded_channel();
        BackgroundTaskSystem { sender, receiver }
    }
}

/// Mesh results committed per frame.
pub const MAX_TASKS_PER_FRAME: usize = 4;

/// A committed mesh: the resources it goes into and the mesh itself.
pub struct MeshUpload {
    pub entity: usize,
    pub update: CacheUpdate,
    pub mesh: TerrainMeshData,
}

/// The level a loaded result is for; a result without one counts as High.
pub open spec fn result_lod(lod: Option<LodLevel>) -> LodLevel {
    match lod {
        Some(l) => l,
        None => LodLevel::High,
    }
}

/// The effect of one worker result: a generated chunk is marked generated; a
/// loaded mesh is committed when it still matches its chunk, and dropped with
/// nothing changed when stale.
pub open spec fn task_result_applied(
    result: BackgroundTaskResult,
    c0: Seq<WorldChunk>,
    p0: PoolView,
    c1: Seq<WorldChunk>,
    p1: PoolView,
    r: Option<MeshUpload>,
) -> bool {
    match result {
        BackgroundTaskResult::ChunkGenerated(g) => {
            &&& r is None
            &&& p1 == p0
            &&& g.entity < c0.len() ==> c1 == c0.update(
                g.entity as int,
                WorldChunk { generated: true, ..c0[g.entity as int] },
            )
            &&& g.entity >= c0.len() ==> c1 == c0
        },
        BackgroundTaskResult::ChunkLoaded(d) => {
            let lod = result_lod(d.lod);
            let e = d.entity;
            &&& crate::streaming::result_applies(c0, e, lod) ==> ({
                let c = c0[e as int];
                let u = crate::mesh_pool::updated(p0, e as u64, c.id@, lod);
                &&& r is Some
                &&& r->Some_0.entity == e
                &&& r->Some_0.update == u.1
                &&& r->Some_0.mesh@ == d.mesh@
                &&& p1 == u.0
                &&& c1 == c0.update(e as int, WorldChunk { current_lod: Some(lod), ..c })
            })
            &&& !crate::streaming::result_applies(c0, e, lod) ==> r is None && c1 == c0 && p1 == p0
        },
    }
}

/// The result commits a mesh: a loaded mesh that still matches its chunk.
pub open spec fn commits(result: BackgroundTaskResult, chunks: Seq<WorldChunk>) -> bool {
    match result {
        BackgroundTaskResult::ChunkLoaded(d) => crate::streaming::result_applies(chunks, d.entity, result_lod(d.lod)),
        BackgroundTaskResult::ChunkGenerated(_) => false,
    }
}

/// Applies one worker result: a generated chunk is marked generated; a loaded
/// mesh is committed when it still matches its chunk and dropped when stale.
pub fn apply_task_result(
    result: BackgroundTaskResult,
    chunks: &mut Vec<WorldChunk>,
    mesh_pool: &mut MeshPool,
) -> (r: Option<MeshUpload>)
    requires
        old(mesh_pool).wf(),
        old(mesh_pool)@.next_handle + 1 < u64::MAX,
    ensures
        final(mesh_pool).wf(),
        final(chunks)@.len() == old(chunks)@.len(),
        all_lod_consistent(old(chunks)@) ==> all_lod_consistent(final(chunks)@),
        task_result_applied(result, old(chunks)@, old(mesh_pool)@, final(chunks)@, final(mesh_pool)@, r),
        r is Some <==> commits(result, old(chunks)@),
{
    match result {
        BackgroundTaskResult::ChunkGenerated(g) => {
            mark_generated(chunks, g.entity);
            None
        },
        BackgroundTaskResult::ChunkLoaded(d) => {
            let lod = match d.lod {
                Some(l) => l,
                None => LodLevel::High,
            };
            let ChunkData { entity, mesh, lod: _ } = d;
            match process_loaded_chunk(chunks, mesh_pool, entity, lod) {
                Some(update) => Some(MeshUpload { entity, update, mesh }),
                None => None,
            }
        },
    }
}

/// Applies one received result and counts it against the frame's budget:
/// a committed mesh is added to the uploads, a generated chunk or a stale
/// mesh adds nothing. Says whether the budget is now used up.
pub fn drain_step(
    result: BackgroundTaskResult,
    chunks: &mut Vec<WorldChunk>,
    mesh_pool: &mut MeshPool,
    uploads: &mut Vec<MeshUpload>,
) -> (full: bool)
    requires
        old(mesh_pool).wf(),
        old(mesh_pool)@.next_handle + 1 < u64::MAX,
    ensures
        final(mesh_pool).wf(),
        final(chunks)@.len() == old(chunks)@.len(),
        all_lod_consistent(old(chunks)@) ==> all_lod_consistent(final(chunks)@),
        commits(result, old(chunks)@) ==> final(uploads)@ == old(uploads)@.push(final(uploads)@.last())
            && task_result_applied(
            result,
            old(chunks)@,
            old(mesh_pool)@,
            final(chunks)@,
            final(mesh_pool)@,
            Some(final(uploads)@.last()),
        ),
        !commits(result, old(chunks)@) ==> final(uploads)@ == old(uploads)@ && task_result_applied(
            result,
            old(chunks)@,
            old(mesh_pool)@,
            final(chunks)@,
            final(mesh_pool)@,
            None,
        ),
        full == (final(uploads)@.len() >= MAX_TASKS_PER_FRAME),
{
    match apply_task_result(result, chunks, mesh_pool) {
        Some(upload) => {
            uploads.push(upload);
        },
        None => {},
    }
    uploads.len() >= MAX_TASKS_PER_FRAME
}

/// Drains the results waiting on the channel without blocking, applying each
/// in arrival order with `drain_step`, and stops early once
/// `MAX_TASKS_PER_FRAME` meshes have been committed; the rest wait for the
/// next frame. What arrives depends on the workers. Nothing is drained while
/// the pool is about to run out of handles.
pub fn handle_background_tasks(
    task_system: &BackgroundTaskSystem,
    chunks: &mut Vec<WorldChunk>,
    mesh_pool: &mut MeshPool,
) -> (r: Vec<MeshUpload>)
    requires
        old(mesh_pool).wf(),
    ensures
        final(mesh_pool).wf(),
        r@.len() <= MAX_TASKS_PER_FRAME,
        final(chunks)@.len() == old(chunks)@.len(),
        all_lod_consistent(old(chunks)@) ==> all_lod_consistent(final(chunks)@),
        old(mesh_pool)@.next_handle >= u64::MAX - 2 ==> r@.len() == 0 && final(chunks)@ == old(chunks)@
            && final(mesh_pool)@ == old(mesh_pool)@,
{
    if mesh_pool.handles_issued() >= u64::MAX - 2 {
        return Vec::new();
    }
    let ghost consistent = all_lod_consistent(chunks@);
    let ghost n = chunks@.len();
    let mut uploads: Vec<MeshUpload> = Vec::new();
    let mut received: u64 = 0;
    while received < u64::MAX
        invariant
            mesh_pool.wf(),
            uploads@.len() < MAX_TASKS_PER_FRAME,
            chunks@.len() == n,
            n == old(chunks)@.len(),
            old(mesh_pool)@.next_handle < u64::MAX - 2,
            consistent == all_lod_consistent(old(chunks)@),
            consistent ==> all_lod_consistent(chunks@),
        decreases u64::MAX - received,
    {
        if mesh_pool.handles_issued() >= u64::MAX - 2 {
            break;
        }
        match try_receive(&task_system.receiver) {
            None => break,
            Some(result) => {
                received = received + 1;
                if drain_step(result, chunks, mesh_pool, &mut uploads) {
                    return uploads;
                }
            },
        }
    }
    uploads
}

} // verus!
