use fallen_age::codec::{Float2, Float3, TerrainMeshData};
use fallen_age::jobs::{drain_step, handle_background_tasks, BackgroundTaskResult, BackgroundTaskSystem, ChunkData, GeneratedChunkData};
use fallen_age::lod::LodLevel;
use fallen_age::mesh_pool::MeshPool;
use fallen_age::streaming::WorldChunk;

fn tiny_mesh() -> TerrainMeshData {
    TerrainMeshData {
        positions: vec![Float3 { x: 0, y: 0, z: 0 }],
        normals: vec![Float3 { x: 0, y: 0x3f80_0000, z: 0 }],
        uvs: vec![Float2 { u: 0, v: 0 }],
        indices: vec![],
    }
}

#[test]
fn generated_results_mark_chunks() {
    let system = BackgroundTaskSystem::new();
    let mut chunks = vec![WorldChunk::new("a".to_string(), 0, 0), WorldChunk::new("b".to_string(), 256, 0)];
    let mut pool = MeshPool::new(0, 10, 10);
    system.sender.send(BackgroundTaskResult::ChunkGenerated(GeneratedChunkData { entity: 1 })).unwrap();
    let uploads = handle_background_tasks(&system, &mut chunks, &mut pool);
    assert!(uploads.is_empty());
    assert!(!chunks[0].generated);
    assert!(chunks[1].generated);
}

#[test]
fn at_most_four_meshes_per_frame() {
    let system = BackgroundTaskSystem::new();
    let mut chunks: Vec<WorldChunk> = (0..6).map(|i| WorldChunk::new(format!("c{}", i), 0, 0)).collect();
    for c in chunks.iter_mut() {
        c.generated = true;
        c.loaded = true;
        c.target_lod = Some(LodLevel::Low);
    }
    let mut pool = MeshPool::new(0, 10, 10);
    for e in 0..6 {
        let data = ChunkData { entity: e, mesh: tiny_mesh(), lod: Some(LodLevel::Low) };
        system.sender.send(BackgroundTaskResult::ChunkLoaded(data)).unwrap();
    }
    let first = handle_background_tasks(&system, &mut chunks, &mut pool);
    assert_eq!(first.len(), 4);
    assert_eq!(first[0].entity, 0);
    assert_eq!(first[0].mesh.normals[0].y, 0x3f80_0000);
    let second = handle_background_tasks(&system, &mut chunks, &mut pool);
    assert_eq!(second.len(), 2);
    assert!(chunks.iter().all(|c| c.current_lod == Some(LodLevel::Low)));
}

#[test]
fn stale_loaded_result_is_not_counted() {
    let system = BackgroundTaskSystem::new();
    let mut chunks = vec![WorldChunk::new("a".to_string(), 0, 0)];
    chunks[0].loaded = true;
    chunks[0].target_lod = Some(LodLevel::Medium);
    let mut pool = MeshPool::new(0, 10, 10);
    let data = ChunkData { entity: 0, mesh: tiny_mesh(), lod: None };
    system.sender.send(BackgroundTaskResult::ChunkLoaded(data)).unwrap();
    let uploads = handle_background_tasks(&system, &mut chunks, &mut pool);
    assert!(uploads.is_empty());
    assert_eq!(chunks[0].current_lod, None);
}

#[test]
fn drain_step_counts_only_committed_meshes() {
    let mut chunks = vec![WorldChunk::new("a".to_string(), 0, 0), WorldChunk::new("b".to_string(), 0, 0)];
    chunks[1].loaded = true;
    chunks[1].target_lod = Some(LodLevel::High);
    let mut pool = MeshPool::new(0, 10, 10);
    let mut uploads = Vec::new();
    let generated = BackgroundTaskResult::ChunkGenerated(GeneratedChunkData { entity: 0 });
    assert!(!drain_step(generated, &mut chunks, &mut pool, &mut uploads));
    assert!(uploads.is_empty());
    let stale = BackgroundTaskResult::ChunkLoaded(ChunkData { entity: 0, mesh: tiny_mesh(), lod: Some(LodLevel::High) });
    assert!(!drain_step(stale, &mut chunks, &mut pool, &mut uploads));
    assert!(uploads.is_empty());
    for _ in 0..3 {
        let ok = BackgroundTaskResult::ChunkLoaded(ChunkData { entity: 1, mesh: tiny_mesh(), lod: None });
        assert!(!drain_step(ok, &mut chunks, &mut pool, &mut uploads));
    }
    let ok = BackgroundTaskResult::ChunkLoaded(ChunkData { entity: 1, mesh: tiny_mesh(), lod: None });
    assert!(drain_step(ok, &mut chunks, &mut pool, &mut uploads));
    assert_eq!(uploads.len(), 4);
    assert!(chunks[0].generated);
}
