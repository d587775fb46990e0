use fallen_age::lod::LodLevel;
use fallen_age::mesh_pool::{Displaced, MeshPool, ReturnOutcome};
use fallen_age::streaming::{
    in_view, process_loaded_chunk, process_lod_changes, process_pending_mesh_deletions, update_chunk,
    view_world, world_chunks, PendingLodChange, PendingLodChanges, PendingMeshDeletions, ViewRect, WorldChunk, WorldMap,
};

fn generated_chunk(id: &str, x: i64, z: i64) -> WorldChunk {
    let mut c = WorldChunk::new(id.to_string(), x, z);
    c.generated = true;
    c
}

fn map() -> WorldMap {
    WorldMap { chunks_with: 4, chunks_height: 4, chunk_size: 256 }
}

fn rect_around_origin() -> ViewRect {
    ViewRect { min_x: 0, max_x: 100, min_z: 0, max_z: 100 }
}

fn far_rect() -> ViewRect {
    ViewRect { min_x: 100_000, max_x: 100_100, min_z: 100_000, max_z: 100_100 }
}

#[test]
fn rectangle_overlap_is_strict() {
    let r = ViewRect { min_x: 0, max_x: 100, min_z: 0, max_z: 100 };
    assert!(in_view(&r, 0, 0, 256, 0));
    assert!(!in_view(&r, -256, 0, 256, 0));
    assert!(in_view(&r, -256, 0, 256, 1));
    assert!(!in_view(&r, 100, 0, 256, 0));
    assert!(in_view(&r, 163, 0, 256, 64));
    assert!(!in_view(&r, 164, 0, 256, 64));
}

#[test]
fn uncached_request_is_queued_once() {
    let mut chunks = vec![generated_chunk("abc", 0, 0)];
    let mut deletions = PendingMeshDeletions(vec![]);
    let mut changes = PendingLodChanges(vec![]);
    let mut pool = MeshPool::new(0, 10, 10);
    let frames = view_world(&rect_around_origin(), &map(), LodLevel::High, &mut chunks, &mut deletions, &mut changes, &mut pool);
    assert_eq!(frames.len(), 1);
    assert!(frames[0].visible);
    assert_eq!(frames[0].attach, None);
    assert_eq!(changes.0.len(), 1);
    assert_eq!(changes.0[0].chunk_id, "abc");
    assert_eq!(changes.0[0].lod_level, LodLevel::High);
    assert!(chunks[0].loaded);
    assert_eq!(chunks[0].target_lod, Some(LodLevel::High));
    assert_eq!(chunks[0].current_lod, None);
    // asked again in the same frame: nothing more is queued
    update_chunk(&mut chunks, 0, true, true, LodLevel::High, &mut deletions, &mut changes, &mut pool);
    assert_eq!(changes.0.len(), 1);
    view_world(&rect_around_origin(), &map(), LodLevel::High, &mut chunks, &mut deletions, &mut changes, &mut pool);
    assert_eq!(changes.0.len(), 1);
}

#[test]
fn ungenerated_chunk_waits() {
    let mut chunks = vec![WorldChunk::new("abc".to_string(), 0, 0)];
    let mut deletions = PendingMeshDeletions(vec![]);
    let mut changes = PendingLodChanges(vec![]);
    let mut pool = MeshPool::new(0, 10, 10);
    view_world(&rect_around_origin(), &map(), LodLevel::High, &mut chunks, &mut deletions, &mut changes, &mut pool);
    assert!(changes.0.is_empty());
    assert!(!chunks[0].loaded);
}

#[test]
fn stale_result_after_level_change_is_dropped() {
    let mut chunks = vec![generated_chunk("abc", 0, 0)];
    let mut deletions = PendingMeshDeletions(vec![]);
    let mut changes = PendingLodChanges(vec![]);
    let mut pool = MeshPool::new(0, 10, 10);
    view_world(&rect_around_origin(), &map(), LodLevel::High, &mut chunks, &mut deletions, &mut changes, &mut pool);
    // the camera climbs before the High mesh arrives
    view_world(&rect_around_origin(), &map(), LodLevel::Medium, &mut chunks, &mut deletions, &mut changes, &mut pool);
    assert_eq!(chunks[0].target_lod, Some(LodLevel::Medium));
    assert!(process_loaded_chunk(&mut chunks, &mut pool, 0, LodLevel::High).is_none());
    assert_eq!(chunks[0].current_lod, None);
    assert_eq!(pool.stats(), (0, 0, 0, 10));
    let u = process_loaded_chunk(&mut chunks, &mut pool, 0, LodLevel::Medium).unwrap();
    assert_eq!(chunks[0].current_lod, Some(LodLevel::Medium));
    assert!(u.cached_copy.is_some());
    // the same Medium result again changes nothing once the target moved on
    chunks[0].target_lod = Some(LodLevel::Low);
    assert!(process_loaded_chunk(&mut chunks, &mut pool, 0, LodLevel::Medium).is_none());
    assert_eq!(chunks[0].current_lod, Some(LodLevel::Medium));
}

#[test]
fn cached_level_is_attached_at_once() {
    let mut chunks = vec![generated_chunk("abc", 0, 0)];
    let mut deletions = PendingMeshDeletions(vec![]);
    let mut changes = PendingLodChanges(vec![]);
    let mut pool = MeshPool::new(0, 10, 10);
    let u = pool.update_and_cache_mesh(99, "abc", LodLevel::High);
    let frames = view_world(&rect_around_origin(), &map(), LodLevel::High, &mut chunks, &mut deletions, &mut changes, &mut pool);
    let g = frames[0].attach.unwrap();
    assert_eq!(g.handle, u.cached_copy.unwrap());
    assert_eq!(chunks[0].current_lod, Some(LodLevel::High));
    assert!(changes.0.is_empty());
}

#[test]
fn leaving_chunk_is_unloaded_and_its_mesh_returned() {
    let mut chunks = vec![generated_chunk("abc", 0, 0)];
    let mut deletions = PendingMeshDeletions(vec![]);
    let mut changes = PendingLodChanges(vec![]);
    let mut pool = MeshPool::new(0, 10, 10);
    view_world(&rect_around_origin(), &map(), LodLevel::High, &mut chunks, &mut deletions, &mut changes, &mut pool);
    let u = process_loaded_chunk(&mut chunks, &mut pool, 0, LodLevel::High).unwrap();
    let frames = view_world(&far_rect(), &map(), LodLevel::High, &mut chunks, &mut deletions, &mut changes, &mut pool);
    assert!(!frames[0].visible);
    assert!(!chunks[0].loaded);
    assert_eq!(chunks[0].current_lod, None);
    assert_eq!(chunks[0].target_lod, None);
    assert_eq!(deletions.0, vec![0]);
    let done = process_pending_mesh_deletions(&mut pool, &chunks, &mut deletions);
    // the displayed mesh takes the High slot; the copy that held it is recycled
    assert_eq!(
        done,
        vec![(0, ReturnOutcome::Cached(u.displayed.handle, Displaced::Recycled(u.cached_copy.unwrap())))]
    );
    assert!(deletions.0.is_empty());
}

#[test]
fn deletions_are_batched_by_five() {
    let chunks: Vec<WorldChunk> = (0..7).map(|i| WorldChunk::new(format!("c{}", i), 0, 0)).collect();
    let mut pool = MeshPool::new(0, 10, 10);
    for i in 0..7u64 {
        pool.get_mesh(i, None, None);
    }
    let mut deletions = PendingMeshDeletions((0..7).collect());
    let done = process_pending_mesh_deletions(&mut pool, &chunks, &mut deletions);
    assert_eq!(done.len(), 5);
    assert_eq!(deletions.0, vec![5, 6]);
    let done = process_pending_mesh_deletions(&mut pool, &chunks, &mut deletions);
    assert_eq!(done.len(), 2);
    assert!(deletions.0.is_empty());
}

#[test]
fn reloaded_chunk_keeps_its_mesh() {
    let mut chunks = vec![generated_chunk("abc", 0, 0)];
    chunks[0].loaded = true;
    let mut pool = MeshPool::new(0, 10, 10);
    pool.get_mesh(0, None, None);
    let mut deletions = PendingMeshDeletions(vec![0]);
    let done = process_pending_mesh_deletions(&mut pool, &chunks, &mut deletions);
    assert!(done.is_empty());
    assert_eq!(pool.stats(), (0, 0, 1, 10));
}

fn request(entity: usize, lod: LodLevel) -> PendingLodChange {
    PendingLodChange { entity, chunk_id: format!("c{}", entity), lod_level: lod }
}

#[test]
fn lod_changes_are_deduplicated_and_capped() {
    let mut chunks: Vec<WorldChunk> = (0..8).map(|i| generated_chunk(&format!("c{}", i), 0, 0)).collect();
    for c in chunks.iter_mut() {
        c.loaded = true;
        c.target_lod = Some(LodLevel::High);
    }
    chunks[7].current_lod = Some(LodLevel::High);
    let mut queue = vec![request(0, LodLevel::High), request(0, LodLevel::High), request(1, LodLevel::Low)];
    for e in 1..8 {
        queue.push(request(e, LodLevel::High));
    }
    let mut changes = PendingLodChanges(queue);
    let dispatched = process_lod_changes(&mut changes, &chunks);
    let ents: Vec<usize> = dispatched.iter().map(|c| c.entity).collect();
    assert_eq!(ents, vec![0, 1, 2, 3, 4]);
    let rest: Vec<usize> = changes.0.iter().map(|c| c.entity).collect();
    assert_eq!(rest, vec![5, 6]);
}

#[test]
fn every_frame_keeps_current_level_backed_by_loaded() {
    let mut chunks: Vec<WorldChunk> = (0..6).map(|i| generated_chunk(&format!("c{}", i), i * 256, 0)).collect();
    let mut deletions = PendingMeshDeletions(vec![]);
    let mut changes = PendingLodChanges(vec![]);
    let mut pool = MeshPool::new(0, 4, 2);
    let rects = [rect_around_origin(), far_rect(), rect_around_origin(), ViewRect { min_x: 500, max_x: 900, min_z: 0, max_z: 10 }];
    let lods = [LodLevel::High, LodLevel::Medium, LodLevel::Low];
    for step in 0..12 {
        let lod = lods[step % 3];
        view_world(&rects[step % 4], &map(), lod, &mut chunks, &mut deletions, &mut changes, &mut pool);
        for c in process_lod_changes(&mut changes, &chunks) {
            process_loaded_chunk(&mut chunks, &mut pool, c.entity, c.lod_level);
        }
        process_pending_mesh_deletions(&mut pool, &chunks, &mut deletions);
        for c in &chunks {
            assert!(c.current_lod.is_none() || c.loaded);
        }
    }
}

#[test]
fn world_tiles_row_by_row_with_hashed_ids() {
    let map = WorldMap::new(8192, 4096, 256);
    assert_eq!((map.chunks_with, map.chunks_height), (32, 16));
    let chunks = world_chunks(&map).unwrap();
    assert_eq!(chunks.len(), 512);
    assert_eq!(chunks[0].id, "f4dbdf");
    assert_eq!(chunks[1].id, "83dcef");
    assert_eq!((chunks[1].origin_x, chunks[1].origin_z), (256, 0));
    assert_eq!((chunks[33].origin_x, chunks[33].origin_z), (256, 256));
    assert!(chunks.iter().all(|c| !c.loaded && !c.generated && c.current_lod.is_none()));
}

#[test]
fn world_without_short_ids_is_refused() {
    // sequence number 665 hashes to a five-digit checksum
    let map = WorldMap { chunks_with: 700, chunks_height: 1, chunk_size: 1 };
    assert!(world_chunks(&map).is_none());
}
