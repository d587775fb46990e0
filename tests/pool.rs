use fallen_age::lod::LodLevel;
use fallen_age::mesh_pool::{Displaced, MeshPool, ReturnOutcome};

#[test]
fn small_pool_recycles_two_and_destroys_third() {
    let mut pool = MeshPool::new(0, 2, 1);
    let a = pool.get_mesh(1, None, None);
    let b = pool.get_mesh(2, None, None);
    let c = pool.get_mesh(3, None, None);
    assert!(a.created && b.created && c.created);
    assert_eq!((a.handle, b.handle, c.handle), (0, 1, 2));
    assert_eq!(pool.return_mesh(1), ReturnOutcome::Recycled(0));
    assert_eq!(pool.return_mesh(2), ReturnOutcome::Recycled(1));
    assert_eq!(pool.return_mesh(3), ReturnOutcome::Destroyed(2));
    assert_eq!(pool.stats(), (2, 0, 0, 2));
}

#[test]
fn free_list_is_served_oldest_first() {
    let mut pool = MeshPool::new(3, 10, 10);
    assert_eq!(pool.initialize(), vec![0, 1, 2]);
    let g = pool.get_mesh(7, None, None);
    assert_eq!(g.handle, 0);
    assert!(!g.created);
    assert_eq!(g.released, ReturnOutcome::NotActive);
    assert_eq!(pool.stats(), (2, 0, 1, 10));
}

#[test]
fn returned_identified_mesh_is_cached_and_hit() {
    let mut pool = MeshPool::new(0, 10, 10);
    let g = pool.get_mesh(1, Some("abc"), Some(LodLevel::High));
    assert_eq!(pool.return_mesh(1), ReturnOutcome::Cached(g.handle, Displaced::Nothing));
    assert!(pool.has_cached_mesh("abc", LodLevel::High));
    assert!(!pool.has_cached_mesh("abc", LodLevel::Low));
    let hit = pool.get_cached_mesh(2, "abc", LodLevel::High).unwrap();
    assert_eq!(hit.handle, g.handle);
    assert!(!pool.has_cached_mesh("abc", LodLevel::High));
    assert_eq!(pool.get_cached_mesh(3, "abc", LodLevel::High), None);
}

#[test]
fn cache_full_falls_back_to_free_list() {
    let mut pool = MeshPool::new(0, 10, 1);
    pool.get_mesh(1, Some("a"), Some(LodLevel::High));
    pool.get_mesh(2, Some("b"), Some(LodLevel::High));
    assert!(matches!(pool.return_mesh(1), ReturnOutcome::Cached(_, Displaced::Nothing)));
    assert!(matches!(pool.return_mesh(2), ReturnOutcome::Recycled(_)));
    assert_eq!(pool.return_mesh(2), ReturnOutcome::NotActive);
}

#[test]
fn upload_keeps_a_cached_copy() {
    let mut pool = MeshPool::new(0, 10, 10);
    let u = pool.update_and_cache_mesh(5, "abc", LodLevel::Medium);
    assert!(u.displayed.created);
    let copy = u.cached_copy.unwrap();
    assert_ne!(copy, u.displayed.handle);
    assert!(pool.has_cached_mesh("abc", LodLevel::Medium));
    // a second upload reuses the displayed resource and makes no new copy
    let again = pool.update_and_cache_mesh(5, "abc", LodLevel::Medium);
    assert_eq!(again.displayed.handle, u.displayed.handle);
    assert_eq!(again.cached_copy, None);
    assert_eq!(pool.stats(), (0, 1, 1, 10));
}

#[test]
fn switching_level_hands_previous_mesh_back() {
    let mut pool = MeshPool::new(0, 10, 10);
    let high = pool.update_and_cache_mesh(1, "abc", LodLevel::High);
    let med = pool.update_and_cache_mesh(2, "abc", LodLevel::Medium);
    let hit = pool.get_cached_mesh(1, "abc", LodLevel::Medium).unwrap();
    assert_eq!(hit.handle, med.cached_copy.unwrap());
    // the High mesh that owner 1 showed is returned into the High slot, and
    // the copy that held the slot goes to the free list
    assert_eq!(
        hit.released,
        ReturnOutcome::Cached(high.displayed.handle, Displaced::Recycled(high.cached_copy.unwrap()))
    );
    assert!(pool.has_cached_mesh("abc", LodLevel::High));
    assert_eq!(pool.stats(), (1, 1, 2, 10));
}

#[test]
fn default_pool_sizes() {
    let pool = MeshPool::default();
    assert_eq!(pool.stats(), (0, 0, 0, 50));
    assert_eq!(pool.handles_issued(), 0);
}

#[test]
fn returned_mesh_takes_occupied_slot_and_displaced_one_is_destroyed_when_free_list_full() {
    let mut pool = MeshPool::new(0, 0, 10);
    let u = pool.update_and_cache_mesh(1, "abc", LodLevel::Low);
    let copy = u.cached_copy.unwrap();
    assert_eq!(
        pool.return_mesh(1),
        ReturnOutcome::Cached(u.displayed.handle, Displaced::Destroyed(copy))
    );
    let hit = pool.get_cached_mesh(2, "abc", LodLevel::Low).unwrap();
    assert_eq!(hit.handle, u.displayed.handle);
    assert_eq!(pool.stats(), (0, 0, 1, 0));
}

#[test]
fn returned_mesh_takes_occupied_slot_and_displaced_one_is_recycled() {
    let mut pool = MeshPool::new(0, 5, 10);
    let u = pool.update_and_cache_mesh(1, "abc", LodLevel::Low);
    let copy = u.cached_copy.unwrap();
    assert_eq!(
        pool.return_mesh(1),
        ReturnOutcome::Cached(u.displayed.handle, Displaced::Recycled(copy))
    );
    assert_eq!(pool.stats(), (1, 1, 0, 5));
    // the recycled copy is served next from the free list
    assert_eq!(pool.get_mesh(3, None, None).handle, copy);
}
