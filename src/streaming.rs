use vstd::prelude::*;
use crate::lod::LodLevel;
use crate::short_hash::{SHORT_HASH_MIN, crc32_iso_hdlc, decimal_bytes, decimal_string_bytes, short_hash_of, short_hash_of_bytes};
use crate::mesh_pool::{MeshPool, PoolView, MeshGrant, CacheUpdate, ReturnOutcome, cache_hit, released, updated};

verus! {

/// One terrain tile and its streaming state.
pub struct WorldChunk {
    /// Stable short id, also the name of its cache files.
    pub id: String,
    /// World position of the chunk's corner.
    pub origin_x: i64,
    pub origin_z: i64,
    /// Some mesh is attached or being brought in.
    pub loaded: bool,
    /// The cache files of every level of detail have been written.
    pub generated: bool,
    /// Level of the mesh presently attached.
    pub current_lod: Option<LodLevel>,
    /// Level that the controller has committed to loading.
    pub target_lod: Option<LodLevel>,
}

/// A chunk with a mesh level attached is loaded.
pub open spec fn lod_consistent(c: WorldChunk) -> bool {
    c.current_lod is Some ==> c.loaded
}

impl WorldChunk {
    /// A chunk as the world starts it: not generated, not loaded.
    pub fn new(id: String, origin_x: i64, origin_z: i64) -> (r: WorldChunk)
        ensures
            r.id == id,
            r.origin_x == origin_x,
            r.origin_z == origin_z,
            !r.loaded,
            !r.generated,
            r.current_lod is None,
            r.target_lod is None,
            lod_consistent(r),
    {
        WorldChunk { id, origin_x, origin_z, loaded: false, generated: false, current_lod: None, target_lod: None }
    }
}

/// The tiling of the world.
pub struct WorldMap {
    pub chunks_with: u32,
    pub chunks_height: u32,
    pub chunk_size: u32,
}

impl WorldMap {
    /// The tiling of a `width` by `height` map into square chunks.
    pub fn new(width: u32, height: u32, chunk_size: u32) -> (r: WorldMap)
        requires
            chunk_size > 0,
        ensures
            r.chunks_with == width / chunk_size,
            r.chunks_height == height / chunk_size,
            r.chunk_size == chunk_size,
    {
        WorldMap { chunks_with: width / chunk_size, chunks_height: height / chunk_size, chunk_size }
    }
}

/// The id of the chunk with sequence number `i`: the short hash of its
/// decimal digits.
pub open spec fn chunk_id_ok(i: nat) -> bool {
    crc32_iso_hdlc(decimal_bytes(i)) >= SHORT_HASH_MIN
}

/// The chunk with sequence number `i` of the tiling, as the world starts it:
/// row by row, `chunks_with` per row, each at its corner.
pub open spec fn is_world_chunk(map: WorldMap, i: int, c: WorldChunk) -> bool {
    &&& c.id@ == short_hash_of(crc32_iso_hdlc(decimal_bytes(i as nat)))
    &&& c.origin_x == (i % map.chunks_with as int) * map.chunk_size
    &&& c.origin_z == (i / map.chunks_with as int) * map.chunk_size
    &&& !c.loaded
    &&& !c.generated
    &&& c.current_lod is None
    &&& c.target_lod is None
}

/// The chunks of the world in sequence order, or none when the id of some
/// chunk would be shorter than six digits.
pub fn world_chunks(map: &WorldMap) -> (r: Option<Vec<WorldChunk>>)
    requires
        map.chunks_with as int * map.chunks_height as int <= usize::MAX,
        map.chunks_with as int * map.chunk_size as int <= i64::MAX,
        map.chunks_height as int * map.chunk_size as int <= i64::MAX,
    ensures
        ({
            let n = map.chunks_with as int * map.chunks_height as int;
            &&& r is None <==> exists|i: int| 0 <= i < n && !#[trigger] chunk_id_ok(i as nat)
            &&& r matches Some(v) ==> {
                &&& v@.len() == n
                &&& forall|i: int| 0 <= i < n ==> is_world_chunk(*map, i, #[trigger] v@[i])
            }
        }),
{
    let w = map.chunks_with as usize;
    let n = w * map.chunks_height as usize;
    let mut chunks: Vec<WorldChunk> = Vec::new();
    let mut i: usize = 0;
    while i < n
        invariant
            w == map.chunks_with,
            n == map.chunks_with as int * map.chunks_height as int,
            map.chunks_with as int * map.chunk_size as int <= i64::MAX,
            map.chunks_height as int * map.chunk_size as int <= i64::MAX,
            i <= n,
            chunks@.len() == i,
            forall|j: int| 0 <= j < i ==> #[trigger] chunk_id_ok(j as nat),
            forall|j: int| 0 <= j < i ==> is_world_chunk(*map, j, #[trigger] chunks@[j]),
        decreases n - i,
    {
        let label = decimal_string_bytes(i);
        let id = match short_hash_of_bytes(label.as_slice()) {
            Some(id) => id,
            None => {
                assert(!chunk_id_ok(i as nat));
                let ghost ii = i as int;
                assert(0 <= ii < map.chunks_with as int * map.chunks_height as int && !chunk_id_ok(ii as nat));
                return None;
            },
        };
        let ghost col = i as int % w as int;
        let ghost row = i as int / w as int;
        proof {
            assert(w > 0 && row < map.chunks_height as int && 0 <= col < w && row >= 0) by (nonlinear_arith)
                requires
                    i < w * map.chunks_height,
                    i >= 0,
                    col == i as int % w as int,
                    row == i as int / w as int,
            ;
            assert(col * map.chunk_size <= w * map.chunk_size) by (nonlinear_arith)
                requires
                    0 <= col < w,
                    map.chunk_size >= 0,
            ;
            assert(row * map.chunk_size <= map.chunks_height * map.chunk_size) by (nonlinear_arith)
                requires
                    0 <= row < map.chunks_height,
                    map.chunk_size >= 0,
            ;
        }
        let x = (i % w) as i64 * map.chunk_size as i64;
        let z = (i / w) as i64 * map.chunk_size as i64;
        chunks.push(WorldChunk::new(id, x, z));
        i = i + 1;
    }
    Some(chunks)
}

/// The camera's visible rectangle in world XZ, minima rounded down and maxima
/// rounded up to whole units.
#[derive(Clone, Copy, Debug, PartialEq, Eq, Structural)]
pub struct ViewRect {
    pub min_x: i64,
    pub max_x: i64,
    pub min_z: i64,
    pub max_z: i64,
}

/// The square chunk at `(x, z)` of side `size`, grown by `space` on every
/// side, overlaps the rectangle.
pub open spec fn overlaps(r: ViewRect, x: int, z: int, size: int, space: int) -> bool {
    !(x + size + space <= r.min_x || x - space >= r.max_x || z + size + space <= r.min_z || z - space
        >= r.max_z)
}

pub fn in_view(corners: &ViewRect, pos_x: i64, pos_z: i64, chunk_size: i64, additional_space: i64) -> (r: bool)
    ensures
        r == overlaps(*corners, pos_x as int, pos_z as int, chunk_size as int, additional_space as int),
{
    let x = pos_x as i128;
    let z = pos_z as i128;
    let size = chunk_size as i128;
    let space = additional_space as i128;
    !(x + size + space <= corners.min_x as i128 || x - space >= corners.max_x as i128 || z + size + space
        <= corners.min_z as i128 || z - space >= corners.max_z as i128)
}

/// How much further ahead chunks are prepared at a level: the coarser the
/// level, the higher the camera and the sooner chunks must be ready.
pub open spec fn view_multiplier(lod: LodLevel) -> int {
    match lod {
        LodLevel::High => 1,
        LodLevel::Medium => 2,
        LodLevel::Low => 4,
    }
}

/// Margin around the visible rectangle, in world units, before scaling.
pub const BASE_ADDITIONAL_SPACE: i64 = 64;

pub fn view_distance_multiplier(lod: LodLevel) -> (r: i64)
    ensures
        r == view_multiplier(lod),
{
    match lod {
        LodLevel::High => 1,
        LodLevel::Medium => 2,
        LodLevel::Low => 4,
    }
}

/// A queued request to bring a chunk's mesh in at a level.
pub struct PendingLodChange {
    pub entity: usize,
    pub chunk_id: String,
    pub lod_level: LodLevel,
}

pub struct LodRequest {
    pub entity: usize,
    pub chunk_id: Seq<char>,
    pub lod_level: LodLevel,
}

impl View for PendingLodChange {
    type V = LodRequest;

    open spec fn view(&self) -> LodRequest {
        LodRequest { entity: self.entity, chunk_id: self.chunk_id@, lod_level: self.lod_level }
    }
}

impl PendingLodChange {
    fn copy(&self) -> (r: PendingLodChange)
        ensures
            r@ == self@,
    {
        PendingLodChange { entity: self.entity, chunk_id: self.chunk_id.clone(), lod_level: self.lod_level }
    }
}

/// The queue of requests not yet dispatched.
pub struct PendingLodChanges(pub Vec<PendingLodChange>);

impl View for PendingLodChanges {
    type V = Seq<LodRequest>;

    open spec fn view(&self) -> Seq<LodRequest> {
        self.0@.map_values(|c: PendingLodChange| c@)
    }
}

/// Chunks whose meshes are to be handed back to the pool.
pub struct PendingMeshDeletions(pub Vec<usize>);

/// What the render side does with a chunk this frame.
#[derive(Clone, Copy, Debug, PartialEq, Eq, Structural)]
pub struct ChunkFrame {
    /// Draw it on the visible layers, else on the background layer only.
    pub visible: bool,
    /// A cached mesh to attach at once.
    pub attach: Option<MeshGrant>,
}

pub open spec fn is_pending(reqs: Seq<LodRequest>, entity: usize, lod: LodLevel) -> bool {
    exists|i: int| 0 <= i < reqs.len() && #[trigger] reqs[i].entity == entity && reqs[i].lod_level == lod
}

/// The chunk needs its mesh brought in at `lod` and nothing asks for it yet.
pub open spec fn wants_load(c: WorldChunk, entity: usize, needed: bool, lod: LodLevel, reqs: Seq<LodRequest>) -> bool {
    &&& needed
    &&& c.generated
    &&& (!c.loaded || c.current_lod != Some(lod))
    &&& !is_pending(reqs, entity, lod)
    &&& c.target_lod != Some(lod)
}

/// The streaming state that one frame works on.
pub struct StreamView {
    pub chunks: Seq<WorldChunk>,
    pub deletions: Seq<usize>,
    pub changes: Seq<LodRequest>,
    pub pool: PoolView,
}

/// One chunk's step in a frame: a loaded chunk that is no longer needed is
/// unloaded and queued for deletion; a needed one that wants a new level
/// takes it from the cache at once when it can, else queues a request.
pub open spec fn chunk_step(s: StreamView, entity: int, visible: bool, needed: bool, lod: LodLevel) -> (StreamView, ChunkFrame) {
    let c = s.chunks[entity];
    if c.loaded && !needed {
        (
            StreamView {
                chunks: s.chunks.update(entity, WorldChunk { loaded: false, current_lod: None, target_lod: None, ..c }),
                deletions: s.deletions.push(entity as usize),
                ..s
            },
            ChunkFrame { visible, attach: None },
        )
    } else if wants_load(c, entity as usize, needed, lod, s.changes) {
        if s.pool.cached.contains_key((c.id@, lod)) {
            let hit = cache_hit(s.pool, entity as u64, c.id@, lod);
            (
                StreamView {
                    chunks: s.chunks.update(
                        entity,
                        WorldChunk { loaded: true, current_lod: Some(lod), target_lod: Some(lod), ..c },
                    ),
                    pool: hit.0,
                    ..s
                },
                ChunkFrame { visible, attach: Some(hit.1) },
            )
        } else {
            (
                StreamView {
                    chunks: s.chunks.update(entity, WorldChunk { loaded: true, target_lod: Some(lod), ..c }),
                    changes: s.changes.push(LodRequest { entity: entity as usize, chunk_id: c.id@, lod_level: lod }),
                    ..s
                },
                ChunkFrame { visible, attach: None },
            )
        }
    } else {
        (s, ChunkFrame { visible, attach: None })
    }
}

fn with_state(c: &WorldChunk, loaded: bool, current_lod: Option<LodLevel>, target_lod: Option<LodLevel>) -> (r: WorldChunk)
    ensures
        r == (WorldChunk { loaded, current_lod, target_lod, ..*c }),
{
    WorldChunk {
        id: c.id.clone(),
        origin_x: c.origin_x,
        origin_z: c.origin_z,
        loaded,
        generated: c.generated,
        current_lod,
        target_lod,
    }
}

fn has_pending(changes: &PendingLodChanges, entity: usize, lod: LodLevel) -> (r: bool)
    ensures
        r == is_pending(changes@, entity, lod),
{
    let mut i: usize = 0;
    while i < changes.0.len()
        invariant
            i <= changes.0@.len(),
            forall|j: int| 0 <= j < i ==> !(#[trigger] changes@[j].entity == entity && changes@[j].lod_level == lod),
        decreases changes.0@.len() - i,
    {
        if changes.0[i].entity == entity && changes.0[i].lod_level == lod {
            assert(changes@[i as int].entity == entity);
            return true;
        }
        i = i + 1;
    }
    false
}

/// Applies one chunk's step of a frame.
pub fn update_chunk(
    chunks: &mut Vec<WorldChunk>,
    entity: usize,
    visible: bool,
    needed: bool,
    lod: LodLevel,
    deletions: &mut PendingMeshDeletions,
    changes: &mut PendingLodChanges,
    pool: &mut MeshPool,
) -> (r: ChunkFrame)
    requires
        entity < old(chunks)@.len(),
        old(pool).wf(),
    ensures
        final(pool).wf(),
        ({
            let s = StreamView { chunks: old(chunks)@, deletions: old(deletions).0@, changes: old(changes)@, pool: old(pool)@ };
            let t = chunk_step(s, entity as int, visible, needed, lod);
            &&& final(chunks)@ == t.0.chunks
            &&& final(deletions).0@ == t.0.deletions
            &&& final(changes)@ == t.0.changes
            &&& final(pool)@ == t.0.pool
            &&& r == t.1
        }),
{
    let ghost s = StreamView { chunks: chunks@, deletions: deletions.0@, changes: changes@, pool: pool@ };
    let loaded = chunks[entity].loaded;
    if loaded && !needed {
        let c = with_state(&chunks[entity], false, None, None);
        chunks.set(entity, c);
        deletions.0.push(entity);
        return ChunkFrame { visible, attach: None };
    }
    let pending = has_pending(changes, entity, lod);
    let c = &chunks[entity];
    if needed && c.generated && (!c.loaded || c.current_lod != Some(lod)) && !pending && c.target_lod != Some(lod) {
        if pool.has_cached_mesh(c.id.as_str(), lod) {
            let hit = pool.get_cached_mesh(entity as u64, c.id.as_str(), lod);
            let nc = with_state(c, true, Some(lod), Some(lod));
            chunks.set(entity, nc);
            match hit {
                Some(g) => ChunkFrame { visible, attach: Some(g) },
                None => ChunkFrame { visible, attach: None },
            }
        } else {
            let req = PendingLodChange { entity, chunk_id: c.id.clone(), lod_level: lod };
            let nc = with_state(c, true, c.current_lod, Some(lod));
            chunks.set(entity, nc);
            let ghost before = changes@;
            changes.0.push(req);
            assert(changes@ =~= before.push(LodRequest { entity, chunk_id: s.chunks[entity as int].id@, lod_level: lod }));
            ChunkFrame { visible, attach: None }
        }
    } else {
        ChunkFrame { visible, attach: None }
    }
}

/// A needed, generated chunk that asks for a level it neither shows nor aims
/// at, that is not cached and not yet requested, gets exactly one request
/// queued: it aims at the level, is marked loaded, keeps its attached level,
/// and the pool and deletions are untouched. Asking again in the same frame
/// changes nothing.
pub proof fn lemma_request_queued_once(s: StreamView, e: int, visible: bool, lod: LodLevel)
    requires
        0 <= e < s.chunks.len(),
        s.chunks[e].generated,
        s.chunks[e].current_lod != Some(lod),
        s.chunks[e].target_lod != Some(lod),
        !is_pending(s.changes, e as usize, lod),
        !s.pool.cached.contains_key((s.chunks[e].id@, lod)),
    ensures
        ({
            let c = s.chunks[e];
            let t = chunk_step(s, e, visible, true, lod).0;
            &&& t.changes == s.changes.push(LodRequest { entity: e as usize, chunk_id: c.id@, lod_level: lod })
            &&& t.chunks[e].target_lod == Some(lod)
            &&& t.chunks[e].loaded
            &&& t.chunks[e].current_lod == c.current_lod
            &&& t.pool == s.pool
            &&& t.deletions == s.deletions
            &&& chunk_step(t, e, visible, true, lod).0 == t
        }),
{
    let t = chunk_step(s, e, visible, true, lod).0;
    assert(t.chunks[e].target_lod == Some(lod));
    assert(!wants_load(t.chunks[e], e as usize, true, lod, t.changes));
}

/// When the camera's level moves on while a load for the old level is in
/// flight, the chunk aims at the new level and queues a request for it,
/// keeps the level it shows, and a result for the old level no longer
/// applies to it.
pub proof fn lemma_level_change_supersedes(s: StreamView, e: int, visible: bool, old_lod: LodLevel, lod: LodLevel)
    requires
        0 <= e < s.chunks.len() <= usize::MAX,
        s.chunks[e].generated,
        s.chunks[e].loaded,
        s.chunks[e].target_lod == Some(old_lod),
        old_lod != lod,
        s.chunks[e].current_lod != Some(lod),
        !is_pending(s.changes, e as usize, lod),
        !s.pool.cached.contains_key((s.chunks[e].id@, lod)),
    ensures
        ({
            let t = chunk_step(s, e, visible, true, lod).0;
            &&& t.chunks[e].target_lod == Some(lod)
            &&& t.chunks[e].current_lod == s.chunks[e].current_lod
            &&& t.changes == s.changes.push(LodRequest { entity: e as usize, chunk_id: s.chunks[e].id@, lod_level: lod })
            &&& t.pool == s.pool
            &&& !result_applies(t.chunks, e as usize, old_lod)
        }),
{
    assert(s.chunks[e].target_lod != Some(lod));
    assert(wants_load(s.chunks[e], e as usize, true, lod, s.changes));
    let t = chunk_step(s, e, visible, true, lod).0;
    assert(t.chunks[e].target_lod == Some(lod));
    assert(Some(lod) != Some(old_lod));
}

/// Whether a chunk is drawn, and whether it is kept materialised: drawn when
/// it meets the visible rectangle grown by the level's margin, kept when it
/// also meets the rectangle grown by a further chunk's width at that scale.
pub open spec fn chunk_needs(rect: ViewRect, c: WorldChunk, size: int, lod: LodLevel) -> (bool, bool) {
    let mult = view_multiplier(lod);
    let space = BASE_ADDITIONAL_SPACE * mult;
    let visible = overlaps(rect, c.origin_x as int, c.origin_z as int, size, space);
    let extended = overlaps(rect, c.origin_x as int, c.origin_z as int, size, space + size * mult);
    (visible, visible || extended)
}

/// The steps of the first `n` chunks of a frame, in order.
pub open spec fn frame_prefix(s: StreamView, rect: ViewRect, size: int, lod: LodLevel, n: int) -> (StreamView, Seq<ChunkFrame>)
    decreases n,
{
    if n <= 0 {
        (s, Seq::empty())
    } else {
        let p = frame_prefix(s, rect, size, lod, n - 1);
        let need = chunk_needs(rect, p.0.chunks[n - 1], size, lod);
        let t = chunk_step(p.0, n - 1, need.0, need.1, lod);
        (t.0, p.1.push(t.1))
    }
}

/// Every chunk with a mesh level attached is loaded.
pub open spec fn all_lod_consistent(chunks: Seq<WorldChunk>) -> bool {
    forall|i: int| 0 <= i < chunks.len() ==> lod_consistent(#[trigger] chunks[i])
}

/// A chunk's step keeps every chunk's attached level backed by `loaded`.
pub proof fn lemma_chunk_step_lod_consistent(s: StreamView, entity: int, visible: bool, needed: bool, lod: LodLevel)
    requires
        0 <= entity < s.chunks.len(),
        all_lod_consistent(s.chunks),
    ensures
        all_lod_consistent(chunk_step(s, entity, visible, needed, lod).0.chunks),
        chunk_step(s, entity, visible, needed, lod).0.chunks.len() == s.chunks.len(),
{
    let t = chunk_step(s, entity, visible, needed, lod).0.chunks;
    assert forall|i: int| 0 <= i < t.len() implies lod_consistent(#[trigger] t[i]) by {
        if i != entity {
            assert(t[i] == s.chunks[i]);
        }
    }
}

/// A frame keeps every chunk's attached level backed by `loaded`, and keeps
/// the chunk count.
pub proof fn lemma_frame_lod_consistent(s: StreamView, rect: ViewRect, size: int, lod: LodLevel, n: int)
    requires
        0 <= n <= s.chunks.len(),
        all_lod_consistent(s.chunks),
    ensures
        all_lod_consistent(frame_prefix(s, rect, size, lod, n).0.chunks),
        frame_prefix(s, rect, size, lod, n).0.chunks.len() == s.chunks.len(),
        frame_prefix(s, rect, size, lod, n).1.len() == n,
    decreases n,
{
    if n > 0 {
        lemma_frame_lod_consistent(s, rect, size, lod, n - 1);
        let p = frame_prefix(s, rect, size, lod, n - 1);
        let need = chunk_needs(rect, p.0.chunks[n - 1], size, lod);
        lemma_chunk_step_lod_consistent(p.0, n - 1, need.0, need.1, lod);
    }
}

proof fn lemma_frame_len(s: StreamView, rect: ViewRect, size: int, lod: LodLevel, n: int)
    requires
        0 <= n <= s.chunks.len(),
    ensures
        frame_prefix(s, rect, size, lod, n).0.chunks.len() == s.chunks.len(),
        frame_prefix(s, rect, size, lod, n).1.len() == n,
    decreases n,
{
    if n > 0 {
        lemma_frame_len(s, rect, size, lod, n - 1);
    }
}

/// One frame of streaming: each chunk in turn is shown or hidden, unloaded
/// when it leaves the kept area, and brought to the camera's level when it
/// is in it.
pub fn view_world(
    corners: &ViewRect,
    map: &WorldMap,
    current_global_lod: LodLevel,
    chunks: &mut Vec<WorldChunk>,
    pending_deletions: &mut PendingMeshDeletions,
    pending_lod_changes: &mut PendingLodChanges,
    mesh_pool: &mut MeshPool,
) -> (r: Vec<ChunkFrame>)
    requires
        old(mesh_pool).wf(),
    ensures
        final(mesh_pool).wf(),
        ({
            let s = StreamView {
                chunks: old(chunks)@,
                deletions: old(pending_deletions).0@,
                changes: old(pending_lod_changes)@,
                pool: old(mesh_pool)@,
            };
            let t = frame_prefix(s, *corners, map.chunk_size as int, current_global_lod, old(chunks)@.len() as int);
            &&& final(chunks)@ == t.0.chunks
            &&& final(pending_deletions).0@ == t.0.deletions
            &&& final(pending_lod_changes)@ == t.0.changes
            &&& final(mesh_pool)@ == t.0.pool
            &&& r@ == t.1
        }),
        all_lod_consistent(old(chunks)@) ==> all_lod_consistent(final(chunks)@),
{
    let ghost s = StreamView {
        chunks: chunks@,
        deletions: pending_deletions.0@,
        changes: pending_lod_changes@,
        pool: mesh_pool@,
    };
    let ghost n = chunks@.len() as int;
    let mult = view_distance_multiplier(current_global_lod);
    let size = map.chunk_size as i64;
    let space = BASE_ADDITIONAL_SPACE * mult;
    let extended = space + size * mult;
    let mut frames: Vec<ChunkFrame> = Vec::new();
    let mut i: usize = 0;
    proof {
        lemma_frame_len(s, *corners, size as int, current_global_lod, n);
        if all_lod_consistent(s.chunks) {
            lemma_frame_lod_consistent(s, *corners, size as int, current_global_lod, n);
        }
    }
    while i < chunks.len()
        invariant
            n == s.chunks.len(),
            chunks@.len() == n,
            0 <= i <= n,
            mesh_pool.wf(),
            size == map.chunk_size,
            mult == view_multiplier(current_global_lod),
            space == BASE_ADDITIONAL_SPACE * mult,
            extended == space + size * mult,
            ({
                let t = frame_prefix(s, *corners, size as int, current_global_lod, i as int);
                &&& chunks@ == t.0.chunks
                &&& pending_deletions.0@ == t.0.deletions
                &&& pending_lod_changes@ == t.0.changes
                &&& mesh_pool@ == t.0.pool
                &&& frames@ == t.1
            }),
        decreases n - i,
    {
        proof {
            lemma_frame_len(s, *corners, size as int, current_global_lod, i as int);
        }
        let x = chunks[i].origin_x;
        let z = chunks[i].origin_z;
        let visible = in_view(corners, x, z, size, space);
        let wider = in_view(corners, x, z, size, extended);
        let f = update_chunk(
            chunks,
            i,
            visible,
            visible || wider,
            current_global_lod,
            pending_deletions,
            pending_lod_changes,
            mesh_pool,
        );
        frames.push(f);
        i = i + 1;
    }
    frames
}

/// Deletions handed back to the pool per frame.
pub const DELETION_BATCH_SIZE: usize = 5;

/// Hands back, in order, the meshes of the queued chunks that are still
/// unloaded; a chunk that was loaded again keeps its mesh.
pub open spec fn deletions_applied(chunks: Seq<WorldChunk>, pool: PoolView, ents: Seq<usize>) -> (PoolView, Seq<(usize, ReturnOutcome)>)
    decreases ents.len(),
{
    if ents.len() == 0 {
        (pool, Seq::empty())
    } else {
        let p = deletions_applied(chunks, pool, ents.drop_last());
        let e = ents.last();
        if e < chunks.len() && !chunks[e as int].loaded {
            let r = released(p.0, e as u64);
            (r.0, p.1.push((e, r.1)))
        } else {
            p
        }
    }
}

/// Processes at most `DELETION_BATCH_SIZE` queued deletions, oldest first,
/// and reports what became of each returned mesh.
pub fn process_pending_mesh_deletions(
    mesh_pool: &mut MeshPool,
    chunks: &Vec<WorldChunk>,
    pending_deletions: &mut PendingMeshDeletions,
) -> (r: Vec<(usize, ReturnOutcome)>)
    requires
        old(mesh_pool).wf(),
    ensures
        final(mesh_pool).wf(),
        ({
            let q = old(pending_deletions).0@;
            let k = if q.len() < DELETION_BATCH_SIZE { q.len() as int } else { DELETION_BATCH_SIZE as int };
            let d = deletions_applied(chunks@, old(mesh_pool)@, q.take(k));
            &&& final(pending_deletions).0@ == q.skip(k)
            &&& final(mesh_pool)@ == d.0
            &&& r@ == d.1
        }),
{
    let ghost q = pending_deletions.0@;
    let ghost p0 = mesh_pool@;
    let len = pending_deletions.0.len();
    let k = if len < DELETION_BATCH_SIZE { len } else { DELETION_BATCH_SIZE };
    let mut done: Vec<(usize, ReturnOutcome)> = Vec::new();
    let mut i: usize = 0;
    while i < k
        invariant
            k <= q.len(),
            pending_deletions.0@ == q,
            0 <= i <= k,
            mesh_pool.wf(),
            (mesh_pool@, done@) == deletions_applied(chunks@, p0, q.take(i as int)),
        decreases k - i,
    {
        let e = pending_deletions.0[i];
        assert(q.take(i + 1).drop_last() =~= q.take(i as int));
        if e < chunks.len() && !chunks[e].loaded {
            let out = mesh_pool.return_mesh(e as u64);
            done.push((e, out));
        }
        i = i + 1;
    }
    let mut rest: Vec<usize> = Vec::new();
    let mut j: usize = k;
    while j < len
        invariant
            len == q.len(),
            pending_deletions.0@ == q,
            k <= j <= len,
            rest@ == q.subrange(k as int, j as int),
        decreases len - j,
    {
        rest.push(pending_deletions.0[j]);
        j = j + 1;
    }
    pending_deletions.0 = rest;
    done
}

/// Requests dispatched per frame.
pub const MAX_CHANGES_PER_FRAME: usize = 5;

/// The request still matches its chunk: loaded, aiming at that level, and
/// not showing it yet.
pub open spec fn eligible(chunks: Seq<WorldChunk>, r: LodRequest) -> bool {
    &&& r.entity < chunks.len()
    &&& chunks[r.entity as int].loaded
    &&& chunks[r.entity as int].target_lod == Some(r.lod_level)
    &&& chunks[r.entity as int].current_lod != Some(r.lod_level)
}

pub open spec fn has_entity(u: Seq<LodRequest>, e: usize) -> bool {
    exists|j: int| 0 <= j < u.len() && #[trigger] u[j].entity == e
}

/// The queue's eligible requests, at most one per chunk, first ones kept.
pub open spec fn unique_requests(chunks: Seq<WorldChunk>, reqs: Seq<LodRequest>) -> Seq<LodRequest>
    decreases reqs.len(),
{
    if reqs.len() == 0 {
        Seq::empty()
    } else {
        let u = unique_requests(chunks, reqs.drop_last());
        let c = reqs.last();
        if has_entity(u, c.entity) || !eligible(chunks, c) {
            u
        } else {
            u.push(c)
        }
    }
}

pub open spec fn requests_of(v: Seq<PendingLodChange>) -> Seq<LodRequest> {
    v.map_values(|c: PendingLodChange| c@)
}

fn contains_entity(u: &Vec<PendingLodChange>, e: usize) -> (r: bool)
    ensures
        r == has_entity(requests_of(u@), e),
{
    let mut j: usize = 0;
    while j < u.len()
        invariant
            j <= u@.len(),
            forall|t: int| 0 <= t < j ==> (#[trigger] u@[t]).entity != e,
        decreases u@.len() - j,
    {
        if u[j].entity == e {
            assert(requests_of(u@)[j as int].entity == e);
            return true;
        }
        j = j + 1;
    }
    assert forall|t: int| 0 <= t < requests_of(u@).len() implies #[trigger] requests_of(u@)[t].entity != e by {
        assert(u@[t].entity != e);
    }
    false
}

/// Drops stale requests and repeats for a chunk, dispatches at most
/// `MAX_CHANGES_PER_FRAME` of the rest and keeps the others queued.
pub fn process_lod_changes(pending_lod_changes: &mut PendingLodChanges, chunks: &Vec<WorldChunk>) -> (r: Vec<PendingLodChange>)
    ensures
        ({
            let u = unique_requests(chunks@, old(pending_lod_changes)@);
            let k = if u.len() < MAX_CHANGES_PER_FRAME { u.len() as int } else { MAX_CHANGES_PER_FRAME as int };
            &&& requests_of(r@) == u.take(k)
            &&& final(pending_lod_changes)@ == u.skip(k)
        }),
{
    let ghost q = pending_lod_changes@;
    let mut unique: Vec<PendingLodChange> = Vec::new();
    let mut i: usize = 0;
    while i < pending_lod_changes.0.len()
        invariant
            q == pending_lod_changes@,
            i <= q.len(),
            q.len() == pending_lod_changes.0@.len(),
            requests_of(unique@) == unique_requests(chunks@, q.take(i as int)),
        decreases q.len() - i,
    {
        let change = &pending_lod_changes.0[i];
        assert(q.take(i + 1).drop_last() =~= q.take(i as int));
        assert(q.take(i + 1).last() == change@);
        let seen = contains_entity(&unique, change.entity);
        if !seen {
            let e = change.entity;
            if e < chunks.len() && chunks[e].loaded && chunks[e].target_lod == Some(change.lod_level)
                && chunks[e].current_lod != Some(change.lod_level) {
                let ghost before = unique@;
                unique.push(change.copy());
                assert(requests_of(unique@) =~= requests_of(before).push(change@));
            }
        }
        i = i + 1;
    }
    assert(q.take(q.len() as int) =~= q);
    let n = unique.len();
    let k = if n < MAX_CHANGES_PER_FRAME { n } else { MAX_CHANGES_PER_FRAME };
    let mut dispatch: Vec<PendingLodChange> = Vec::new();
    let mut rest: Vec<PendingLodChange> = Vec::new();
    let mut j: usize = 0;
    let ghost u = requests_of(unique@);
    while j < n
        invariant
            n == unique@.len(),
            u == requests_of(unique@),
            k <= n,
            j <= n,
            requests_of(dispatch@) == u.take(if j < k { j as int } else { k as int }),
            requests_of(rest@) == (if j <= k { Seq::<LodRequest>::empty() } else { u.subrange(k as int, j as int) }),
        decreases n - j,
    {
        let ghost d0 = dispatch@;
        let ghost r0 = rest@;
        let c = unique[j].copy();
        if j < k {
            dispatch.push(c);
            assert(requests_of(dispatch@) =~= requests_of(d0).push(u[j as int]));
            assert(u.take(j + 1) =~= u.take(j as int).push(u[j as int]));
        } else {
            rest.push(c);
            assert(requests_of(rest@) =~= requests_of(r0).push(u[j as int]));
            assert(u.subrange(k as int, j + 1) =~= u.subrange(k as int, j as int).push(u[j as int]));
        }
        j = j + 1;
    }
    assert(u.skip(k as int) =~= (if n <= k { Seq::<LodRequest>::empty() } else { u.subrange(k as int, n as int) }));
    pending_lod_changes.0 = rest;
    dispatch
}

/// A loaded mesh result may be committed: its chunk is still loaded and still
/// aims at the result's level.
pub open spec fn result_applies(chunks: Seq<WorldChunk>, entity: usize, lod: LodLevel) -> bool {
    entity < chunks.len() && chunks[entity as int].loaded && chunks[entity as int].target_lod == Some(lod)
}

/// Commits a mesh brought in at `lod` for a chunk, or, when the result is
/// stale, changes nothing. A committed result attaches the level; a stale
/// one, such as the same result arriving again after the chunk moved on to
/// another level, leaves chunks and pool as they were.
pub fn process_loaded_chunk(
    chunks: &mut Vec<WorldChunk>,
    mesh_pool: &mut MeshPool,
    entity: usize,
    lod: LodLevel,
) -> (r: Option<CacheUpdate>)
    requires
        old(mesh_pool).wf(),
        old(mesh_pool)@.next_handle + 1 < u64::MAX,
    ensures
        final(mesh_pool).wf(),
        !result_applies(old(chunks)@, entity, lod) ==> r is None && final(chunks)@ == old(chunks)@
            && final(mesh_pool)@ == old(mesh_pool)@,
        result_applies(old(chunks)@, entity, lod) ==> ({
            let c = old(chunks)@[entity as int];
            let u = updated(old(mesh_pool)@, entity as u64, c.id@, lod);
            &&& r == Some(u.1)
            &&& final(mesh_pool)@ == u.0
            &&& final(chunks)@ == old(chunks)@.update(entity as int, WorldChunk { current_lod: Some(lod), ..c })
            &&& final(chunks)@[entity as int].current_lod == Some(lod)
        }),
        all_lod_consistent(old(chunks)@) ==> all_lod_consistent(final(chunks)@),
{
    if entity >= chunks.len() {
        return None;
    }
    let c = &chunks[entity];
    if !c.loaded || c.target_lod != Some(lod) {
        return None;
    }
    let update = mesh_pool.update_and_cache_mesh(entity as u64, c.id.as_str(), lod);
    let nc = with_state(c, true, Some(lod), c.target_lod);
    let ghost old_chunks = chunks@;
    chunks.set(entity, nc);
    assert forall|i: int| 0 <= i < chunks@.len() && all_lod_consistent(old_chunks) implies lod_consistent(#[trigger] chunks@[i]) by {
        if i != entity {
            assert(chunks@[i] == old_chunks[i]);
        }
    }
    Some(update)
}

/// A result applied once commits its level; the same result applied again
/// after the chunk moved on to another level changes nothing: the second
/// application meets the stale case of `process_loaded_chunk`.
pub proof fn lemma_result_applies_once(chunks: Seq<WorldChunk>, e: usize, lod: LodLevel, other: LodLevel)
    requires
        result_applies(chunks, e, lod),
        other != lod,
    ensures
        ({
            let first = chunks.update(e as int, WorldChunk { current_lod: Some(lod), ..chunks[e as int] });
            let moved = first.update(e as int, WorldChunk { target_lod: Some(other), ..first[e as int] });
            &&& first[e as int].current_lod == Some(lod)
            &&& !result_applies(moved, e, lod)
        }),
{
}

/// Records that every level of a chunk's mesh is on disk.
pub fn mark_generated(chunks: &mut Vec<WorldChunk>, entity: usize)
    ensures
        entity < old(chunks)@.len() ==> final(chunks)@ == old(chunks)@.update(
            entity as int,
            WorldChunk { generated: true, ..old(chunks)@[entity as int] },
        ),
        entity >= old(chunks)@.len() ==> final(chunks)@ == old(chunks)@,
        all_lod_consistent(old(chunks)@) ==> all_lod_consistent(final(chunks)@),
{
    if entity < chunks.len() {
        let c = &chunks[entity];
        let nc = WorldChunk {
            id: c.id.clone(),
            origin_x: c.origin_x,
            origin_z: c.origin_z,
            loaded: c.loaded,
            generated: true,
            current_lod: c.current_lod,
            target_lod: c.target_lod,
        };
        let ghost old_chunks = chunks@;
        chunks.set(entity, nc);
        assert forall|i: int| 0 <= i < chunks@.len() && all_lod_consistent(old_chunks) implies lod_consistent(#[trigger] chunks@[i]) by {
            if i != entity {
                assert(chunks@[i] == old_chunks[i]);
            }
        }
    }
}

} // verus!
