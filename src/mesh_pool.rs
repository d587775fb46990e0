use vstd::prelude::*;
use std::collections::HashMap;
use std::collections::VecDeque;
use crate::lod::LodLevel;

verus! {

broadcast use vstd::std_specs::hash::group_hash_axioms;

/// Identifies one render mesh resource owned by the pool.
pub type MeshHandle = u64;

/// What an active resource is registered with: its handle and, where known,
/// the chunk and level of detail it shows.
pub struct MeshUsageInfo {
    pub handle: MeshHandle,
    pub chunk_id: Option<String>,
    pub lod_level: Option<LodLevel>,
}

pub struct ActiveMesh {
    pub handle: MeshHandle,
    pub chunk_id: Option<Seq<char>>,
    pub lod_level: Option<LodLevel>,
}

impl View for MeshUsageInfo {
    type V = ActiveMesh;

    open spec fn view(&self) -> ActiveMesh {
        ActiveMesh {
            handle: self.handle,
            chunk_id: match self.chunk_id {
                Some(s) => Some(s@),
                None => None,
            },
            lod_level: self.lod_level,
        }
    }
}

/// What became of a resource handed back to the pool.
#[derive(Clone, Copy, Debug, PartialEq, Eq, Structural)]
pub enum ReturnOutcome {
    /// The owner held no resource.
    NotActive,
    /// Kept in the per-chunk cache for its chunk and level of detail; the
    /// resource that held that slot before, if any, left as reported.
    Cached(MeshHandle, Displaced),
    /// Reset to placeholder geometry and put on the free list.
    Recycled(MeshHandle),
    /// Dropped: the cache could not take it and the free list was full. The
    /// resource must be freed.
    Destroyed(MeshHandle),
}

/// What became of a cached resource whose slot a returned one took.
#[derive(Clone, Copy, Debug, PartialEq, Eq, Structural)]
pub enum Displaced {
    /// The slot was empty.
    Nothing,
    /// Reset to placeholder geometry and put on the free list.
    Recycled(MeshHandle),
    /// Dropped: the free list was full. The resource must be freed.
    Destroyed(MeshHandle),
}

/// The outcome reports that resource `x` left the pool.
pub open spec fn destroys(out: ReturnOutcome, x: MeshHandle) -> bool {
    match out {
        ReturnOutcome::Destroyed(h) => h == x,
        ReturnOutcome::Cached(_, Displaced::Destroyed(h)) => h == x,
        _ => false,
    }
}

/// A resource handed to an owner.
#[derive(Clone, Copy, Debug, PartialEq, Eq, Structural)]
pub struct MeshGrant {
    pub handle: MeshHandle,
    /// The resource is new and needs placeholder geometry.
    pub created: bool,
    /// What became of the resource that the owner held before, if any.
    pub released: ReturnOutcome,
}

/// The resources that a mesh upload touches.
#[derive(Clone, Copy, Debug, PartialEq, Eq, Structural)]
pub struct CacheUpdate {
    /// The owner's displayed resource, to be filled with the mesh.
    pub displayed: MeshGrant,
    /// A new resource put in the per-chunk cache, to be filled with the same mesh.
    pub cached_copy: Option<MeshHandle>,
}

/// Which levels of one chunk have a cached resource.
#[derive(Clone, Copy, Debug, PartialEq, Eq, Structural)]
struct LodSlots {
    high: Option<MeshHandle>,
    medium: Option<MeshHandle>,
    low: Option<MeshHandle>,
}

spec fn slot_of(s: LodSlots, lod: LodLevel) -> Option<MeshHandle> {
    match lod {
        LodLevel::High => s.high,
        LodLevel::Medium => s.medium,
        LodLevel::Low => s.low,
    }
}

/// The view of an optional chunk id.
pub open spec fn id_view(o: &Option<String>) -> Option<Seq<char>> {
    match o {
        Some(s) => Some(s@),
        None => None,
    }
}

fn get_slot(s: LodSlots, lod: LodLevel) -> (r: Option<MeshHandle>)
    ensures
        r == slot_of(s, lod),
{
    match lod {
        LodLevel::High => s.high,
        LodLevel::Medium => s.medium,
        LodLevel::Low => s.low,
    }
}

fn with_slot(s: LodSlots, lod: LodLevel, v: Option<MeshHandle>) -> (r: LodSlots)
    ensures
        slot_of(r, lod) == v,
        forall|l: LodLevel| l != lod ==> slot_of(r, l) == slot_of(s, l),
{
    match lod {
        LodLevel::High => LodSlots { high: v, ..s },
        LodLevel::Medium => LodSlots { medium: v, ..s },
        LodLevel::Low => LodSlots { low: v, ..s },
    }
}

spec fn slots_empty(s: LodSlots) -> bool {
    s.high.is_none() && s.medium.is_none() && s.low.is_none()
}

/// Cache keys of one chunk's filled slots.
spec fn slot_keys(id: Seq<char>, s: LodSlots) -> Set<(Seq<char>, LodLevel)> {
    let a = if s.high is Some { Set::empty().insert((id, LodLevel::High)) } else { Set::empty() };
    let b = if s.medium is Some { a.insert((id, LodLevel::Medium)) } else { a };
    if s.low is Some { b.insert((id, LodLevel::Low)) } else { b }
}

proof fn lemma_slot_keys(id: Seq<char>, s: LodSlots)
    ensures
        slot_keys(id, s).finite(),
        slot_keys(id, s).len() == (if s.high is Some { 1nat } else { 0nat }) + (if s.medium is Some {
            1nat
        } else {
            0nat
        }) + (if s.low is Some { 1nat } else { 0nat }),
        forall|k: (Seq<char>, LodLevel)| #[trigger] slot_keys(id, s).contains(k) <==> k.0 == id && slot_of(s, k.1) is Some,
{
    let e = Set::<(Seq<char>, LodLevel)>::empty();
    let a = if s.high is Some { e.insert((id, LodLevel::High)) } else { e };
    let b = if s.medium is Some { a.insert((id, LodLevel::Medium)) } else { a };
    assert(!a.contains((id, LodLevel::Medium)));
    assert(!b.contains((id, LodLevel::Low)));
    assert forall|k: (Seq<char>, LodLevel)| #[trigger] slot_keys(id, s).contains(k) <==> k.0 == id && slot_of(s, k.1) is Some by {
        match k.1 {
            LodLevel::High => {},
            LodLevel::Medium => {},
            LodLevel::Low => {},
        }
    }
}

/// The pool as the contracts see it.
pub struct PoolView {
    /// Resources with placeholder geometry, unowned, oldest first.
    pub free: Seq<MeshHandle>,
    /// Resources in use, by owner.
    pub active: Map<u64, ActiveMesh>,
    /// Resources kept for reuse, by chunk and level of detail.
    pub cached: Map<(Seq<char>, LodLevel), MeshHandle>,
    /// Number of chunks with at least one cached resource.
    pub cached_chunks: nat,
    pub min_pool_size: nat,
    pub max_pool_size: nat,
    pub max_cached_chunks: nat,
    /// Handles below this one have been issued.
    pub next_handle: nat,
}

/// Some level of the chunk has a cached resource.
pub open spec fn has_chunk(cached: Map<(Seq<char>, LodLevel), MeshHandle>, id: Seq<char>) -> bool {
    cached.contains_key((id, LodLevel::High)) || cached.contains_key((id, LodLevel::Medium))
        || cached.contains_key((id, LodLevel::Low))
}

/// Every resource sits in exactly one place: once on the free list, or with
/// one owner, or under one cache key; and every handle has been issued.
pub open spec fn partitioned(v: PoolView) -> bool {
    &&& v.free.no_duplicates()
    &&& forall|a: u64, b: u64|
        #![trigger v.active[a], v.active[b]]
        v.active.contains_key(a) && v.active.contains_key(b) && a != b ==> v.active[a].handle
            != v.active[b].handle
    &&& forall|a: (Seq<char>, LodLevel), b: (Seq<char>, LodLevel)|
        #![trigger v.cached[a], v.cached[b]]
        v.cached.contains_key(a) && v.cached.contains_key(b) && a != b ==> v.cached[a] != v.cached[b]
    &&& forall|i: int, o: u64|
        #![trigger v.free[i], v.active[o]]
        0 <= i < v.free.len() && v.active.contains_key(o) ==> v.free[i] != v.active[o].handle
    &&& forall|i: int, k: (Seq<char>, LodLevel)|
        #![trigger v.free[i], v.cached[k]]
        0 <= i < v.free.len() && v.cached.contains_key(k) ==> v.free[i] != v.cached[k]
    &&& forall|o: u64, k: (Seq<char>, LodLevel)|
        #![trigger v.active[o], v.cached[k]]
        v.active.contains_key(o) && v.cached.contains_key(k) ==> v.active[o].handle != v.cached[k]
    &&& forall|i: int| 0 <= i < v.free.len() ==> #[trigger] v.free[i] < v.next_handle
    &&& forall|o: u64| v.active.contains_key(o) ==> #[trigger] v.active[o].handle < v.next_handle
    &&& forall|k: (Seq<char>, LodLevel)| v.cached.contains_key(k) ==> #[trigger] v.cached[k] < v.next_handle
}

/// The pool after `owner` hands back its resource: into the per-chunk cache
/// when the resource knows its chunk and level and fewer than
/// `max_cached_chunks` chunks are cached, a resource already in that slot
/// going onto the free list while it is shorter than `max_pool_size` and
/// being destroyed otherwise; else onto the free list while it is shorter
/// than `max_pool_size`; else destroyed.
pub open spec fn released(v: PoolView, owner: u64) -> (PoolView, ReturnOutcome) {
    if !v.active.contains_key(owner) {
        (v, ReturnOutcome::NotActive)
    } else {
        let m = v.active[owner];
        let h = m.handle;
        let rest = PoolView { active: v.active.remove(owner), ..v };
        if m.chunk_id is Some && m.lod_level is Some && v.cached_chunks < v.max_cached_chunks {
            let id = m.chunk_id->Some_0;
            let key = (id, m.lod_level->Some_0);
            let cached = PoolView {
                cached: v.cached.insert(key, h),
                cached_chunks: if has_chunk(v.cached, id) {
                    v.cached_chunks
                } else {
                    v.cached_chunks + 1
                },
                ..rest
            };
            if !v.cached.contains_key(key) {
                (cached, ReturnOutcome::Cached(h, Displaced::Nothing))
            } else if v.free.len() < v.max_pool_size {
                let h2 = v.cached[key];
                (PoolView { free: v.free.push(h2), ..cached }, ReturnOutcome::Cached(h, Displaced::Recycled(h2)))
            } else {
                (cached, ReturnOutcome::Cached(h, Displaced::Destroyed(v.cached[key])))
            }
        } else if v.free.len() < v.max_pool_size {
            (PoolView { free: v.free.push(h), ..rest }, ReturnOutcome::Recycled(h))
        } else {
            (rest, ReturnOutcome::Destroyed(h))
        }
    }
}

/// Lemma: handing a resource back keeps every resource in exactly one place.
pub proof fn lemma_released_partitioned(v: PoolView, owner: u64)
    requires
        partitioned(v),
    ensures
        partitioned(released(v, owner).0),
        released(v, owner).0.next_handle == v.next_handle,
        released(v, owner).0.max_pool_size == v.max_pool_size,
        released(v, owner).0.max_cached_chunks == v.max_cached_chunks,
        released(v, owner).0.min_pool_size == v.min_pool_size,
        !released(v, owner).0.active.contains_key(owner),
        forall|o: u64| o != owner ==> released(v, owner).0.active.contains_key(o) == v.active.contains_key(o),
        forall|o: u64| o != owner && v.active.contains_key(o) ==> released(v, owner).0.active[o] == v.active[o],
{
    if v.active.contains_key(owner) {
        let m = v.active[owner];
        let h = m.handle;
        let r = released(v, owner).0;
        assert forall|i: int| 0 <= i < v.free.len() implies v.free[i] != h by {
            assert(v.free[i] != v.active[owner].handle);
        }
        assert forall|k: (Seq<char>, LodLevel)| v.cached.contains_key(k) implies v.cached[k] != h by {
            assert(v.active[owner].handle != v.cached[k]);
        }
        assert forall|o: u64| v.active.contains_key(o) && o != owner implies v.active[o].handle != h by {
            assert(v.active[o].handle != v.active[owner].handle);
        }
        let id = m.chunk_id->Some_0;
        let key = (id, m.lod_level->Some_0);
        let displacing = m.chunk_id is Some && m.lod_level is Some && v.cached_chunks < v.max_cached_chunks
            && v.cached.contains_key(key);
        if displacing {
            let h2 = v.cached[key];
            assert forall|i: int| 0 <= i < v.free.len() implies v.free[i] != h2 by {
                assert(v.free[i] != v.cached[key]);
            }
            assert forall|o: u64| v.active.contains_key(o) implies v.active[o].handle != h2 by {
                assert(v.active[o].handle != v.cached[key]);
            }
            assert forall|k: (Seq<char>, LodLevel)| v.cached.contains_key(k) && k != key implies v.cached[k]
                != h2 by {
                assert(v.cached[k] != v.cached[key]);
            }
        }
        if r.free.len() > v.free.len() {
            let x = r.free.last();
            assert(r.free == v.free.push(x));
            assert forall|i: int| 0 <= i < v.free.len() implies v.free[i] != x by {
                if displacing {
                    assert(v.free[i] != v.cached[key]);
                }
            }
            assert forall|i: int, j: int| 0 <= i < r.free.len() && 0 <= j < r.free.len() && i != j
                implies r.free[i] != r.free[j] by {
                if i < v.free.len() && j < v.free.len() {
                    assert(v.free.no_duplicates());
                }
            }
        }
    }
}

/// The handle is in no place of the pool and has been issued.
pub open spec fn unused(v: PoolView, h: MeshHandle) -> bool {
    &&& h < v.next_handle
    &&& forall|i: int| 0 <= i < v.free.len() ==> #[trigger] v.free[i] != h
    &&& forall|o: u64| v.active.contains_key(o) ==> #[trigger] v.active[o].handle != h
    &&& forall|k: (Seq<char>, LodLevel)| v.cached.contains_key(k) ==> #[trigger] v.cached[k] != h
}

/// The pool once the cached resource of a chunk and level is taken out.
pub open spec fn cache_taken(v: PoolView, id: Seq<char>, lod: LodLevel) -> PoolView {
    PoolView {
        cached: v.cached.remove((id, lod)),
        cached_chunks: if has_chunk(v.cached.remove((id, lod)), id) {
            v.cached_chunks
        } else {
            (v.cached_chunks - 1) as nat
        },
        ..v
    }
}

/// The pool with `h` registered as the resource of `owner`.
pub open spec fn registered(
    v: PoolView,
    owner: u64,
    h: MeshHandle,
    id: Option<Seq<char>>,
    lod: Option<LodLevel>,
) -> PoolView {
    PoolView { active: v.active.insert(owner, ActiveMesh { handle: h, chunk_id: id, lod_level: lod }), ..v }
}

/// A cache hit: the cached resource of the chunk and level goes to `owner`,
/// whose previous resource, if any, is handed back first.
pub open spec fn cache_hit(v: PoolView, owner: u64, id: Seq<char>, lod: LodLevel) -> (PoolView, MeshGrant) {
    let h = v.cached[(id, lod)];
    let r = released(cache_taken(v, id, lod), owner);
    (registered(r.0, owner, h, Some(id), Some(lod)), MeshGrant { handle: h, created: false, released: r.1 })
}

/// A resource for `owner` from the front of the free list, or a new one when
/// the list is empty; the owner's previous resource is handed back first.
pub open spec fn generic_acquired(
    v: PoolView,
    owner: u64,
    id: Option<Seq<char>>,
    lod: Option<LodLevel>,
) -> (PoolView, MeshGrant) {
    let r = released(v, owner);
    let v1 = r.0;
    if v1.free.len() > 0 {
        let h = v1.free[0];
        (
            registered(PoolView { free: v1.free.drop_first(), ..v1 }, owner, h, id, lod),
            MeshGrant { handle: h, created: false, released: r.1 },
        )
    } else {
        let h = v1.next_handle as u64;
        (
            registered(PoolView { next_handle: v1.next_handle + 1, ..v1 }, owner, h, id, lod),
            MeshGrant { handle: h, created: true, released: r.1 },
        )
    }
}

/// A cache hit where chunk and level are given and cached, else a generic
/// resource.
pub open spec fn acquired(
    v: PoolView,
    owner: u64,
    id: Option<Seq<char>>,
    lod: Option<LodLevel>,
) -> (PoolView, MeshGrant) {
    if id is Some && lod is Some && v.cached.contains_key((id->Some_0, lod->Some_0)) {
        cache_hit(v, owner, id->Some_0, lod->Some_0)
    } else {
        generic_acquired(v, owner, id, lod)
    }
}

/// The owner's resource (kept if it has one, else acquired) now shows the
/// chunk at the level; where the cache has no resource for them, a new one
/// with the same mesh goes there.
pub open spec fn updated(v: PoolView, owner: u64, id: Seq<char>, lod: LodLevel) -> (PoolView, CacheUpdate) {
    let g = if v.active.contains_key(owner) {
        (v, MeshGrant { handle: v.active[owner].handle, created: false, released: ReturnOutcome::NotActive })
    } else {
        acquired(v, owner, Some(id), Some(lod))
    };
    let v2 = registered(g.0, owner, g.1.handle, Some(id), Some(lod));
    if v2.cached.contains_key((id, lod)) {
        (v2, CacheUpdate { displayed: g.1, cached_copy: None })
    } else {
        let c = v2.next_handle as u64;
        (
            PoolView {
                cached: v2.cached.insert((id, lod), c),
                cached_chunks: if has_chunk(v2.cached, id) {
                    v2.cached_chunks
                } else {
                    v2.cached_chunks + 1
                },
                next_handle: v2.next_handle + 1,
                ..v2
            },
            CacheUpdate { displayed: g.1, cached_copy: Some(c) },
        )
    }
}

proof fn lemma_released_unused(v: PoolView, owner: u64, h: MeshHandle)
    requires
        partitioned(v),
        unused(v, h),
    ensures
        unused(released(v, owner).0, h),
{
    if v.active.contains_key(owner) {
        assert(v.active[owner].handle != h);
    }
}

proof fn lemma_cache_taken(v: PoolView, id: Seq<char>, lod: LodLevel)
    requires
        partitioned(v),
        v.cached.contains_key((id, lod)),
    ensures
        partitioned(cache_taken(v, id, lod)),
        unused(cache_taken(v, id, lod), v.cached[(id, lod)]),
{
    let h = v.cached[(id, lod)];
    let t = cache_taken(v, id, lod);
    assert forall|i: int| 0 <= i < t.free.len() implies #[trigger] t.free[i] != h by {
        assert(v.free[i] != v.cached[(id, lod)]);
    }
    assert forall|o: u64| t.active.contains_key(o) implies #[trigger] t.active[o].handle != h by {
        assert(v.active[o].handle != v.cached[(id, lod)]);
    }
    assert forall|k: (Seq<char>, LodLevel)| t.cached.contains_key(k) implies #[trigger] t.cached[k] != h by {
        assert(v.cached[k] != v.cached[(id, lod)]);
    }
}

proof fn lemma_registered(v: PoolView, owner: u64, h: MeshHandle, id: Option<Seq<char>>, lod: Option<LodLevel>)
    requires
        partitioned(v),
        unused(v, h),
        !v.active.contains_key(owner),
    ensures
        partitioned(registered(v, owner, h, id, lod)),
{
    let r = registered(v, owner, h, id, lod);
    assert forall|a: u64, b: u64|
        #![trigger r.active[a], r.active[b]]
        r.active.contains_key(a) && r.active.contains_key(b) && a != b implies r.active[a].handle
            != r.active[b].handle by {
        if a != owner && b != owner {
            assert(v.active[a].handle != v.active[b].handle);
        }
    }
}

proof fn lemma_free_popped(v: PoolView)
    requires
        partitioned(v),
        v.free.len() > 0,
    ensures
        partitioned(PoolView { free: v.free.drop_first(), ..v }),
        unused(PoolView { free: v.free.drop_first(), ..v }, v.free[0]),
{
    let p = PoolView { free: v.free.drop_first(), ..v };
    assert forall|i: int| 0 <= i < p.free.len() implies #[trigger] p.free[i] != v.free[0] by {
        assert(p.free[i] == v.free[i + 1]);
    }
    assert forall|i: int, o: u64|
        #![trigger p.free[i], p.active[o]]
        0 <= i < p.free.len() && p.active.contains_key(o) implies p.free[i] != p.active[o].handle by {
        assert(p.free[i] == v.free[i + 1]);
    }
    assert forall|i: int, k: (Seq<char>, LodLevel)|
        #![trigger p.free[i], p.cached[k]]
        0 <= i < p.free.len() && p.cached.contains_key(k) implies p.free[i] != p.cached[k] by {
        assert(p.free[i] == v.free[i + 1]);
    }
    assert forall|i: int| 0 <= i < p.free.len() implies #[trigger] p.free[i] < p.next_handle by {
        assert(p.free[i] == v.free[i + 1]);
    }
    assert forall|i: int, j: int| 0 <= i < p.free.len() && 0 <= j < p.free.len() && i != j implies p.free[i]
        != p.free[j] by {
        assert(p.free[i] == v.free[i + 1] && p.free[j] == v.free[j + 1]);
    }
    assert forall|o: u64| p.active.contains_key(o) implies #[trigger] p.active[o].handle != v.free[0] by {
        assert(v.free[0] != v.active[o].handle);
    }
    assert forall|k: (Seq<char>, LodLevel)| p.cached.contains_key(k) implies #[trigger] p.cached[k] != v.free[0] by {
        assert(v.free[0] != v.cached[k]);
    }
}

proof fn lemma_fresh(v: PoolView)
    requires
        partitioned(v),
        v.next_handle < u64::MAX,
    ensures
        partitioned(PoolView { next_handle: v.next_handle + 1, ..v }),
        unused(PoolView { next_handle: v.next_handle + 1, ..v }, v.next_handle as u64),
{
}

/// Lemma: the pool after a cache hit keeps every resource in exactly one place.
pub proof fn lemma_cache_hit_partitioned(v: PoolView, owner: u64, id: Seq<char>, lod: LodLevel)
    requires
        partitioned(v),
        v.cached.contains_key((id, lod)),
    ensures
        partitioned(cache_hit(v, owner, id, lod).0),
{
    let h = v.cached[(id, lod)];
    let t = cache_taken(v, id, lod);
    lemma_cache_taken(v, id, lod);
    lemma_released_partitioned(t, owner);
    lemma_released_unused(t, owner, h);
    lemma_registered(released(t, owner).0, owner, h, Some(id), Some(lod));
}

/// Lemma: the pool after a generic acquire keeps every resource in exactly
/// one place.
pub proof fn lemma_generic_partitioned(v: PoolView, owner: u64, id: Option<Seq<char>>, lod: Option<LodLevel>)
    requires
        partitioned(v),
        v.next_handle < u64::MAX,
    ensures
        partitioned(generic_acquired(v, owner, id, lod).0),
{
    let v1 = released(v, owner).0;
    lemma_released_partitioned(v, owner);
    if v1.free.len() > 0 {
        lemma_free_popped(v1);
        lemma_registered(PoolView { free: v1.free.drop_first(), ..v1 }, owner, v1.free[0], id, lod);
    } else {
        lemma_fresh(v1);
        lemma_registered(PoolView { next_handle: v1.next_handle + 1, ..v1 }, owner, v1.next_handle as u64, id, lod);
    }
}

/// Lemma: the pool after an upload keeps every resource in exactly one place.
pub proof fn lemma_updated_partitioned(v: PoolView, owner: u64, id: Seq<char>, lod: LodLevel)
    requires
        partitioned(v),
        v.next_handle + 1 < u64::MAX,
    ensures
        partitioned(updated(v, owner, id, lod).0),
{
    let g = if v.active.contains_key(owner) {
        (v, MeshGrant { handle: v.active[owner].handle, created: false, released: ReturnOutcome::NotActive })
    } else {
        acquired(v, owner, Some(id), Some(lod))
    };
    if !v.active.contains_key(owner) {
        if v.cached.contains_key((id, lod)) {
            lemma_cache_hit_partitioned(v, owner, id, lod);
        } else {
            lemma_generic_partitioned(v, owner, Some(id), Some(lod));
        }
    }
    let v2 = registered(g.0, owner, g.1.handle, Some(id), Some(lod));
    assert(partitioned(g.0));
    assert(g.0.active.contains_key(owner));
    assert forall|a: u64, b: u64|
        #![trigger v2.active[a], v2.active[b]]
        v2.active.contains_key(a) && v2.active.contains_key(b) && a != b implies v2.active[a].handle
            != v2.active[b].handle by {
        if a == owner {
            assert(g.0.active[a].handle != g.0.active[b].handle);
        } else if b == owner {
            assert(g.0.active[a].handle != g.0.active[b].handle);
        } else {
            assert(g.0.active[a].handle != g.0.active[b].handle);
        }
    }
    assert forall|i: int, o: u64|
        #![trigger v2.free[i], v2.active[o]]
        0 <= i < v2.free.len() && v2.active.contains_key(o) implies v2.free[i] != v2.active[o].handle by {
        assert(g.0.free[i] != g.0.active[owner].handle);
        assert(g.0.free[i] != g.0.active[o].handle);
    }
    assert forall|o: u64, k: (Seq<char>, LodLevel)|
        #![trigger v2.active[o], v2.cached[k]]
        v2.active.contains_key(o) && v2.cached.contains_key(k) implies v2.active[o].handle != v2.cached[k] by {
        assert(g.0.active[owner].handle != g.0.cached[k]);
        assert(g.0.active[o].handle != g.0.cached[k]);
    }
    assert forall|o: u64| v2.active.contains_key(o) implies #[trigger] v2.active[o].handle < v2.next_handle by {
        assert(g.0.active[owner].handle < g.0.next_handle);
        assert(g.0.active[o].handle < g.0.next_handle);
    }
    assert(partitioned(v2));
    if !v2.cached.contains_key((id, lod)) {
        let c = v2.next_handle as u64;
        let v3 = updated(v, owner, id, lod).0;
        assert forall|a: (Seq<char>, LodLevel), b: (Seq<char>, LodLevel)|
            #![trigger v3.cached[a], v3.cached[b]]
            v3.cached.contains_key(a) && v3.cached.contains_key(b) && a != b implies v3.cached[a] != v3.cached[b] by {
            if a != (id, lod) && b != (id, lod) {
                assert(v2.cached[a] != v2.cached[b]);
            } else if a != (id, lod) {
                assert(v2.cached[a] < v2.next_handle);
            } else {
                assert(v2.cached[b] < v2.next_handle);
            }
        }
        assert forall|i: int, k: (Seq<char>, LodLevel)|
            #![trigger v3.free[i], v3.cached[k]]
            0 <= i < v3.free.len() && v3.cached.contains_key(k) implies v3.free[i] != v3.cached[k] by {
            assert(v2.free[i] < v2.next_handle);
            if k != (id, lod) {
                assert(v2.free[i] != v2.cached[k]);
            }
        }
        assert forall|o: u64, k: (Seq<char>, LodLevel)|
            #![trigger v3.active[o], v3.cached[k]]
            v3.active.contains_key(o) && v3.cached.contains_key(k) implies v3.active[o].handle != v3.cached[k] by {
            assert(v2.active[o].handle < v2.next_handle);
            if k != (id, lod) {
                assert(v2.active[o].handle != v2.cached[k]);
            }
        }
        assert forall|k: (Seq<char>, LodLevel)| v3.cached.contains_key(k) implies #[trigger] v3.cached[k] < v3.next_handle by {
            if k != (id, lod) {
                assert(v2.cached[k] < v2.next_handle);
            }
        }
        assert forall|i: int| 0 <= i < v3.free.len() implies #[trigger] v3.free[i] < v3.next_handle by {
            assert(v2.free[i] < v2.next_handle);
        }
        assert forall|o: u64| v3.active.contains_key(o) implies #[trigger] v3.active[o].handle < v3.next_handle by {
            assert(v2.active[o].handle < v2.next_handle);
        }
    }
}

/// The resource is somewhere in the pool: on the free list, with an owner or
/// in the cache.
pub open spec fn holds(v: PoolView, h: MeshHandle) -> bool {
    ||| exists|i: int| 0 <= i < v.free.len() && v.free[i] == h
    ||| exists|o: u64| v.active.contains_key(o) && v.active[o].handle == h
    ||| exists|k: (Seq<char>, LodLevel)| v.cached.contains_key(k) && v.cached[k] == h
}

/// Handing a resource back loses nothing: the pool holds the same resources
/// afterwards, except one that the outcome reports destroyed (the returned
/// resource, or a cached one whose slot it took).
pub proof fn lemma_released_keeps_resources(v: PoolView, owner: u64, x: MeshHandle)
    requires
        partitioned(v),
    ensures
        holds(released(v, owner).0, x) <==> holds(v, x) && !destroys(released(v, owner).1, x),
{
    let r = released(v, owner);
    let t = r.0;
    if v.active.contains_key(owner) {
        let m = v.active[owner];
        let h = m.handle;
        let id = m.chunk_id->Some_0;
        let key = (id, m.lod_level->Some_0);
        let caching = m.chunk_id is Some && m.lod_level is Some && v.cached_chunks < v.max_cached_chunks;
        let displacing = caching && v.cached.contains_key(key);
        assert(v.active.contains_key(owner) && v.active[owner].handle == h);
        if holds(v, x) && !destroys(r.1, x) {
            if exists|i: int| 0 <= i < v.free.len() && v.free[i] == x {
                let i = choose|i: int| 0 <= i < v.free.len() && v.free[i] == x;
                assert(t.free[i] == x);
            } else if exists|o: u64| v.active.contains_key(o) && v.active[o].handle == x {
                let o = choose|o: u64| v.active.contains_key(o) && v.active[o].handle == x;
                if o == owner {
                    if caching {
                        assert(t.cached.contains_key(key) && t.cached[key] == x);
                    } else {
                        assert(t.free[v.free.len() as int] == x);
                    }
                } else {
                    assert(t.active.contains_key(o) && t.active[o].handle == x);
                }
            } else {
                let k = choose|k: (Seq<char>, LodLevel)| v.cached.contains_key(k) && v.cached[k] == x;
                if displacing && k == key {
                    assert(t.free[v.free.len() as int] == x);
                } else {
                    assert(t.cached.contains_key(k) && t.cached[k] == x);
                }
            }
        }
        if holds(t, x) {
            if exists|i: int| 0 <= i < t.free.len() && t.free[i] == x {
                let i = choose|i: int| 0 <= i < t.free.len() && t.free[i] == x;
                if i < v.free.len() {
                    assert(v.free[i] == x);
                } else if displacing {
                    assert(v.cached.contains_key(key) && v.cached[key] == x);
                }
            } else if exists|o: u64| t.active.contains_key(o) && t.active[o].handle == x {
                let o = choose|o: u64| t.active.contains_key(o) && t.active[o].handle == x;
                assert(v.active.contains_key(o) && v.active[o].handle == x);
            } else {
                let k = choose|k: (Seq<char>, LodLevel)| t.cached.contains_key(k) && t.cached[k] == x;
                if caching && k == key {
                } else {
                    assert(v.cached.contains_key(k) && v.cached[k] == x);
                }
            }
            if destroys(r.1, x) {
                if displacing {
                    let h2 = v.cached[key];
                    assert(x == h2);
                    assert forall|i: int| 0 <= i < t.free.len() implies t.free[i] != x by {
                        assert(v.free[i] != v.cached[key]);
                    }
                    assert forall|o: u64| t.active.contains_key(o) implies t.active[o].handle != x by {
                        assert(v.active[o].handle != v.cached[key]);
                    }
                    assert forall|k: (Seq<char>, LodLevel)| t.cached.contains_key(k) implies t.cached[k] != x by {
                        if k == key {
                            assert(v.active[owner].handle != v.cached[key]);
                        } else {
                            assert(v.cached[k] != v.cached[key]);
                        }
                    }
                } else {
                    assert(x == h);
                    assert forall|i: int| 0 <= i < t.free.len() implies t.free[i] != x by {
                        assert(v.free[i] != v.active[owner].handle);
                    }
                    assert forall|o: u64| t.active.contains_key(o) implies t.active[o].handle != x by {
                        assert(v.active[o].handle != v.active[owner].handle);
                    }
                    assert forall|k: (Seq<char>, LodLevel)| t.cached.contains_key(k) implies t.cached[k] != x by {
                        assert(v.active[owner].handle != v.cached[k]);
                    }
                }
            }
        }
    }
}

proof fn lemma_cache_taken_holds(v: PoolView, id: Seq<char>, lod: LodLevel, h: MeshHandle)
    requires
        partitioned(v),
        v.cached.contains_key((id, lod)),
    ensures
        holds(cache_taken(v, id, lod), h) <==> holds(v, h) && h != v.cached[(id, lod)],
{
    let t = cache_taken(v, id, lod);
    let c = v.cached[(id, lod)];
    lemma_cache_taken(v, id, lod);
    if holds(v, h) && h != c {
        if exists|k: (Seq<char>, LodLevel)| v.cached.contains_key(k) && v.cached[k] == h {
            let k = choose|k: (Seq<char>, LodLevel)| v.cached.contains_key(k) && v.cached[k] == h;
            assert(t.cached.contains_key(k) && t.cached[k] == h);
        }
    }
    if holds(t, h) {
        if exists|k: (Seq<char>, LodLevel)| t.cached.contains_key(k) && t.cached[k] == h {
            let k = choose|k: (Seq<char>, LodLevel)| t.cached.contains_key(k) && t.cached[k] == h;
            assert(v.cached.contains_key(k) && v.cached[k] == h);
        }
    }
}

proof fn lemma_registered_holds(
    v: PoolView,
    owner: u64,
    h: MeshHandle,
    id: Option<Seq<char>>,
    lod: Option<LodLevel>,
    x: MeshHandle,
)
    requires
        !v.active.contains_key(owner),
    ensures
        holds(registered(v, owner, h, id, lod), x) <==> holds(v, x) || x == h,
{
    let r = registered(v, owner, h, id, lod);
    assert(r.active.contains_key(owner) && r.active[owner].handle == h);
    if x == h {
        assert(holds(r, x));
    }
    if holds(v, x) {
        if exists|o: u64| v.active.contains_key(o) && v.active[o].handle == x {
            let o = choose|o: u64| v.active.contains_key(o) && v.active[o].handle == x;
            assert(o != owner);
            assert(r.active.contains_key(o) && r.active[o].handle == x);
        } else if exists|i: int| 0 <= i < v.free.len() && v.free[i] == x {
            let i = choose|i: int| 0 <= i < v.free.len() && v.free[i] == x;
            assert(r.free[i] == x);
        } else {
            let k = choose|k: (Seq<char>, LodLevel)| v.cached.contains_key(k) && v.cached[k] == x;
            assert(r.cached.contains_key(k) && r.cached[k] == x);
        }
        assert(holds(r, x));
    }
    if holds(r, x) && x != h {
        if exists|o: u64| r.active.contains_key(o) && r.active[o].handle == x {
            let o = choose|o: u64| r.active.contains_key(o) && r.active[o].handle == x;
            assert(o != owner);
            assert(v.active.contains_key(o) && v.active[o].handle == x);
        } else if exists|i: int| 0 <= i < r.free.len() && r.free[i] == x {
            let i = choose|i: int| 0 <= i < r.free.len() && r.free[i] == x;
            assert(v.free[i] == x);
        } else {
            let k = choose|k: (Seq<char>, LodLevel)| r.cached.contains_key(k) && r.cached[k] == x;
            assert(v.cached.contains_key(k) && v.cached[k] == x);
        }
        assert(holds(v, x));
    }
}

/// A cache hit loses nothing and adds nothing: the pool holds the same
/// resources afterwards, except one the owner gave back and that was
/// reported destroyed.
pub proof fn lemma_cache_hit_keeps_resources(v: PoolView, owner: u64, id: Seq<char>, lod: LodLevel, x: MeshHandle)
    requires
        partitioned(v),
        v.cached.contains_key((id, lod)),
    ensures
        holds(cache_hit(v, owner, id, lod).0, x) <==> holds(v, x) && !destroys(
            cache_hit(v, owner, id, lod).1.released,
            x,
        ),
{
    let c = v.cached[(id, lod)];
    let t = cache_taken(v, id, lod);
    let r = released(t, owner);
    lemma_cache_taken(v, id, lod);
    lemma_cache_taken_holds(v, id, lod, x);
    lemma_released_partitioned(t, owner);
    lemma_released_keeps_resources(t, owner, x);
    lemma_registered_holds(r.0, owner, c, Some(id), Some(lod), x);
    assert(holds(v, c));
    if t.active.contains_key(owner) {
        assert(t.active[owner].handle != c);
    }
}

/// A generic acquire loses nothing: the pool holds the same resources
/// afterwards, plus the one it reports created, minus one the owner gave back
/// and that was reported destroyed.
pub proof fn lemma_generic_keeps_resources(
    v: PoolView,
    owner: u64,
    id: Option<Seq<char>>,
    lod: Option<LodLevel>,
    x: MeshHandle,
)
    requires
        partitioned(v),
        v.next_handle < u64::MAX,
    ensures
        ({
            let g = generic_acquired(v, owner, id, lod);
            holds(g.0, x) <==> (holds(v, x) && !destroys(g.1.released, x)) || (g.1.created
                && x == g.1.handle)
        }),
{
    let r = released(v, owner);
    let v1 = r.0;
    lemma_released_partitioned(v, owner);
    lemma_released_keeps_resources(v, owner, x);
    if v1.free.len() > 0 {
        let p = PoolView { free: v1.free.drop_first(), ..v1 };
        lemma_registered_holds(p, owner, v1.free[0], id, lod, x);
        assert(holds(p, x) || x == v1.free[0] <==> holds(v1, x)) by {
            if holds(v1, x) && x != v1.free[0] {
                if exists|i: int| 0 <= i < v1.free.len() && v1.free[i] == x {
                    let i = choose|i: int| 0 <= i < v1.free.len() && v1.free[i] == x;
                    assert(i != 0);
                    assert(p.free[i - 1] == x);
                }
            }
            if holds(p, x) {
                if exists|i: int| 0 <= i < p.free.len() && p.free[i] == x {
                    let i = choose|i: int| 0 <= i < p.free.len() && p.free[i] == x;
                    assert(v1.free[i + 1] == x);
                }
            }
            assert(v1.free[0] == v1.free[0]);
        }
    } else {
        let p = PoolView { next_handle: v1.next_handle + 1, ..v1 };
        lemma_registered_holds(p, owner, v1.next_handle as u64, id, lod, x);
    }
}

proof fn lemma_reregistered_holds(
    v: PoolView,
    owner: u64,
    id: Option<Seq<char>>,
    lod: Option<LodLevel>,
    x: MeshHandle,
)
    requires
        v.active.contains_key(owner),
    ensures
        holds(registered(v, owner, v.active[owner].handle, id, lod), x) <==> holds(v, x),
{
    let h = v.active[owner].handle;
    let r = registered(v, owner, h, id, lod);
    if holds(v, x) {
        if exists|o: u64| v.active.contains_key(o) && v.active[o].handle == x {
            let o = choose|o: u64| v.active.contains_key(o) && v.active[o].handle == x;
            assert(r.active.contains_key(o) && r.active[o].handle == x);
        } else if exists|i: int| 0 <= i < v.free.len() && v.free[i] == x {
            let i = choose|i: int| 0 <= i < v.free.len() && v.free[i] == x;
            assert(r.free[i] == x);
        } else {
            let k = choose|k: (Seq<char>, LodLevel)| v.cached.contains_key(k) && v.cached[k] == x;
            assert(r.cached.contains_key(k) && r.cached[k] == x);
        }
    }
    if holds(r, x) {
        if exists|o: u64| r.active.contains_key(o) && r.active[o].handle == x {
            let o = choose|o: u64| r.active.contains_key(o) && r.active[o].handle == x;
            assert(v.active.contains_key(o) && v.active[o].handle == x);
        } else if exists|i: int| 0 <= i < r.free.len() && r.free[i] == x {
            let i = choose|i: int| 0 <= i < r.free.len() && r.free[i] == x;
            assert(v.free[i] == x);
        } else {
            let k = choose|k: (Seq<char>, LodLevel)| r.cached.contains_key(k) && r.cached[k] == x;
            assert(v.cached.contains_key(k) && v.cached[k] == x);
        }
    }
}

/// An upload loses nothing: the pool holds the same resources afterwards,
/// plus the displayed one when it was created and the cached copy when one
/// was made, minus one the owner gave back and that was reported destroyed.
pub proof fn lemma_updated_keeps_resources(v: PoolView, owner: u64, id: Seq<char>, lod: LodLevel, x: MeshHandle)
    requires
        partitioned(v),
        v.next_handle + 1 < u64::MAX,
    ensures
        ({
            let u = updated(v, owner, id, lod);
            let d = u.1.displayed;
            holds(u.0, x) <==> (holds(v, x) && !destroys(d.released, x)) || (d.created && x
                == d.handle) || u.1.cached_copy == Some(x)
        }),
{
    let g = if v.active.contains_key(owner) {
        (v, MeshGrant { handle: v.active[owner].handle, created: false, released: ReturnOutcome::NotActive })
    } else {
        acquired(v, owner, Some(id), Some(lod))
    };
    if !v.active.contains_key(owner) {
        if v.cached.contains_key((id, lod)) {
            lemma_cache_hit_keeps_resources(v, owner, id, lod, x);
        } else {
            lemma_generic_keeps_resources(v, owner, Some(id), Some(lod), x);
        }
    }
    assert(g.0.active.contains_key(owner) && g.0.active[owner].handle == g.1.handle);
    lemma_reregistered_holds(g.0, owner, Some(id), Some(lod), x);
    let v2 = registered(g.0, owner, g.1.handle, Some(id), Some(lod));
    if !v2.cached.contains_key((id, lod)) {
        let v3 = updated(v, owner, id, lod).0;
        let c = v2.next_handle as u64;
        if holds(v2, x) {
            if exists|o: u64| v2.active.contains_key(o) && v2.active[o].handle == x {
                let o = choose|o: u64| v2.active.contains_key(o) && v2.active[o].handle == x;
                assert(v3.active.contains_key(o) && v3.active[o].handle == x);
            } else if exists|i: int| 0 <= i < v2.free.len() && v2.free[i] == x {
                let i = choose|i: int| 0 <= i < v2.free.len() && v2.free[i] == x;
                assert(v3.free[i] == x);
            } else {
                let k = choose|k: (Seq<char>, LodLevel)| v2.cached.contains_key(k) && v2.cached[k] == x;
                assert(v3.cached.contains_key(k) && v3.cached[k] == x);
            }
        }
        if x == c {
            assert(v3.cached.contains_key((id, lod)) && v3.cached[(id, lod)] == x);
        }
        if holds(v3, x) && x != c {
            if exists|o: u64| v3.active.contains_key(o) && v3.active[o].handle == x {
                let o = choose|o: u64| v3.active.contains_key(o) && v3.active[o].handle == x;
                assert(v2.active.contains_key(o) && v2.active[o].handle == x);
            } else if exists|i: int| 0 <= i < v3.free.len() && v3.free[i] == x {
                let i = choose|i: int| 0 <= i < v3.free.len() && v3.free[i] == x;
                assert(v2.free[i] == x);
            } else {
                let k = choose|k: (Seq<char>, LodLevel)| v3.cached.contains_key(k) && v3.cached[k] == x;
                assert(k != (id, lod));
                assert(v2.cached.contains_key(k) && v2.cached[k] == x);
            }
        }
    }
}

/// A pool of render mesh resources: a free list of placeholder resources, the
/// resources in use by owner, and a per-chunk, per-level cache of resources
/// kept for reuse.
pub struct MeshPool {
    available_generic_meshes: VecDeque<MeshHandle>,
    cached_ids: Vec<String>,
    cached_slots: Vec<LodSlots>,
    cache_view: Ghost<Map<(Seq<char>, LodLevel), MeshHandle>>,
    active_meshes: HashMap<u64, MeshUsageInfo>,
    min_pool_size: usize,
    max_pool_size: usize,
    max_cached_chunks: usize,
    next_handle: u64,
}

impl View for MeshPool {
    type V = PoolView;

    closed spec fn view(&self) -> PoolView {
        PoolView {
            free: self.available_generic_meshes@,
            active: self.active_meshes@.map_values(|i: MeshUsageInfo| i@),
            cached: self.cache_view@,
            cached_chunks: self.cached_ids@.len(),
            min_pool_size: self.min_pool_size as nat,
            max_pool_size: self.max_pool_size as nat,
            max_cached_chunks: self.max_cached_chunks as nat,
            next_handle: self.next_handle as nat,
        }
    }
}

impl MeshPool {
    spec fn cache_consistent(&self) -> bool {
        let ids = self.cached_ids@;
        let slots = self.cached_slots@;
        let c = self.cache_view@;
        &&& ids.len() == slots.len()
        &&& c.dom().finite()
        &&& forall|i: int| 0 <= i < slots.len() ==> !slots_empty(#[trigger] slots[i])
        &&& forall|i: int, j: int|
            0 <= i < ids.len() && 0 <= j < ids.len() && i != j ==> (#[trigger] ids[i])@ != (
            #[trigger] ids[j])@
        &&& forall|i: int, l: LodLevel|
            0 <= i < ids.len() ==> #[trigger] slot_of(slots[i], l) == (if c.contains_key(
                (ids[i]@, l),
            ) {
                Some(c[(ids[i]@, l)])
            } else {
                None
            })
        &&& forall|k: (Seq<char>, LodLevel)|
            #[trigger] c.contains_key(k) ==> exists|i: int| 0 <= i < ids.len() && (#[trigger] ids[i])@ == k.0
    }

    /// The pool's bookkeeping is consistent and every resource sits in
    /// exactly one place.
    pub closed spec fn wf(&self) -> bool {
        self.cache_consistent() && partitioned(self@)
    }

    proof fn lemma_has_chunk(&self, id: Seq<char>)
        requires
            self.cache_consistent(),
        ensures
            has_chunk(self.cache_view@, id) <==> exists|i: int|
                0 <= i < self.cached_ids@.len() && (#[trigger] self.cached_ids@[i])@ == id,
    {
        let c = self.cache_view@;
        if has_chunk(c, id) {
            if c.contains_key((id, LodLevel::High)) {
                assert(c.contains_key((id, LodLevel::High)));
            } else if c.contains_key((id, LodLevel::Medium)) {
                assert(c.contains_key((id, LodLevel::Medium)));
            } else {
                assert(c.contains_key((id, LodLevel::Low)));
            }
        }
        if exists|i: int| 0 <= i < self.cached_ids@.len() && (#[trigger] self.cached_ids@[i])@ == id {
            let i = choose|i: int| 0 <= i < self.cached_ids@.len() && (#[trigger] self.cached_ids@[i])@ == id;
            let s = self.cached_slots@[i];
            assert(!slots_empty(s));
            assert(slot_of(s, LodLevel::High) == s.high);
            assert(slot_of(s, LodLevel::Medium) == s.medium);
            assert(slot_of(s, LodLevel::Low) == s.low);
        }
    }

    /// An empty pool that keeps at most `max_pool_size` free resources and
    /// caches resources of at most `max_cached_chunks` chunks.
    pub fn new(min_pool_size: usize, max_pool_size: usize, max_cached_chunks: usize) -> (r: MeshPool)
        ensures
            r.wf(),
            r@.free == Seq::<MeshHandle>::empty(),
            r@.active == Map::<u64, ActiveMesh>::empty(),
            r@.cached == Map::<(Seq<char>, LodLevel), MeshHandle>::empty(),
            r@.cached_chunks == 0,
            r@.min_pool_size == min_pool_size,
            r@.max_pool_size == max_pool_size,
            r@.max_cached_chunks == max_cached_chunks,
            r@.next_handle == 0,
    {
        let r = MeshPool {
            available_generic_meshes: VecDeque::new(),
            cached_ids: Vec::new(),
            cached_slots: Vec::new(),
            cache_view: Ghost(Map::empty()),
            active_meshes: HashMap::new(),
            min_pool_size,
            max_pool_size,
            max_cached_chunks,
            next_handle: 0,
        };
        assert(r@.active =~= Map::<u64, ActiveMesh>::empty());
        r
    }

    /// Index of the chunk's cache entry, if it has one.
    fn find_chunk(&self, id: &String) -> (r: Option<usize>)
        requires
            self.cache_consistent(),
        ensures
            match r {
                Some(i) => i < self.cached_ids@.len() && self.cached_ids@[i as int]@ == id@,
                None => forall|i: int| 0 <= i < self.cached_ids@.len() ==> (#[trigger] self.cached_ids@[i])@ != id@,
            },
    {
        let mut i: usize = 0;
        while i < self.cached_ids.len()
            invariant
                i <= self.cached_ids@.len(),
                forall|j: int| 0 <= j < i ==> (#[trigger] self.cached_ids@[j])@ != id@,
            decreases self.cached_ids@.len() - i,
        {
            if self.cached_ids[i] == *id {
                return Some(i);
            }
            i = i + 1;
        }
        None
    }

    pub fn has_cached_mesh(&self, chunk_id: &str, lod: LodLevel) -> (r: bool)
        requires
            self.wf(),
        ensures
            r == self@.cached.contains_key((chunk_id@, lod)),
    {
        let id = chunk_id.to_owned();
        self.cache_contains(&id, lod)
    }

    fn cache_contains(&self, id: &String, lod: LodLevel) -> (r: bool)
        requires
            self.cache_consistent(),
        ensures
            r == self.cache_view@.contains_key((id@, lod)),
    {
        match self.find_chunk(id) {
            Some(i) => {
                let s = self.cached_slots[i];
                get_slot(s, lod).is_some()
            },
            None => {
                assert(!self.cache_view@.contains_key((id@, lod)));
                false
            },
        }
    }

    /// Takes the resource out of slot `lod` of cache entry `i`, dropping the
    /// entry when it was its last one.
    fn cache_take(&mut self, i: usize, lod: LodLevel) -> (h: MeshHandle)
        requires
            old(self).cache_consistent(),
            i < old(self).cached_ids@.len(),
            slot_of(old(self).cached_slots@[i as int], lod) is Some,
        ensures
            final(self).cache_consistent(),
            ({
                let id = old(self).cached_ids@[i as int]@;
                let c = old(self)@.cached;
                &&& c.contains_key((id, lod))
                &&& h == c[(id, lod)]
                &&& final(self)@ == PoolView {
                    cached: c.remove((id, lod)),
                    cached_chunks: if has_chunk(c.remove((id, lod)), id) {
                        old(self)@.cached_chunks
                    } else {
                        (old(self)@.cached_chunks - 1) as nat
                    },
                    ..old(self)@
                }
            }),
    {
        let ghost id = self.cached_ids@[i as int]@;
        let ghost c = self.cache_view@;
        let ghost ids0 = self.cached_ids@;
        let ghost slots0 = self.cached_slots@;
        let s = self.cached_slots[i];
        assert(slot_of(slots0[i as int], lod) == (if c.contains_key((ids0[i as int]@, lod)) {
            Some(c[(ids0[i as int]@, lod)])
        } else {
            None
        }));
        let h = match get_slot(s, lod) {
            Some(h) => h,
            None => 0,
        };
        let ns = with_slot(s, lod, None);
        let ghost c2 = c.remove((id, lod));
        if ns.high.is_none() && ns.medium.is_none() && ns.low.is_none() {
            self.cached_slots.remove(i);
            self.cached_ids.remove(i);
            self.cache_view = Ghost(c2);
            assert forall|l: LodLevel| !c2.contains_key((id, l)) by {
                assert(slot_of(slots0[i as int], l) == (if c.contains_key((ids0[i as int]@, l)) {
                    Some(c[(ids0[i as int]@, l)])
                } else {
                    None
                }));
                if l != lod {
                    assert(slot_of(ns, l) == slot_of(s, l));
                    assert(slot_of(ns, l) is None);
                }
            }
            assert(!has_chunk(c2, id));
            let ghost ids1 = self.cached_ids@;
            let ghost slots1 = self.cached_slots@;
            assert forall|j: int, l: LodLevel| 0 <= j < ids1.len() implies #[trigger] slot_of(slots1[j], l)
                == (if c2.contains_key((ids1[j]@, l)) {
                Some(c2[(ids1[j]@, l)])
            } else {
                None
            }) by {
                let oj = if j < i { j } else { j + 1 };
                assert(ids1[j] == ids0[oj] && slots1[j] == slots0[oj]);
                assert(slot_of(slots0[oj], l) == (if c.contains_key((ids0[oj]@, l)) {
                    Some(c[(ids0[oj]@, l)])
                } else {
                    None
                }));
                assert(ids0[oj]@ != id);
            }
            assert forall|k: (Seq<char>, LodLevel)| #[trigger] c2.contains_key(k) implies exists|j: int|
                0 <= j < ids1.len() && (#[trigger] ids1[j])@ == k.0 by {
                assert(c.contains_key(k));
                let oj = choose|oj: int| 0 <= oj < ids0.len() && (#[trigger] ids0[oj])@ == k.0;
                if k.0 == id {
                    assert(c2.contains_key((id, k.1)));
                }
                assert(k.0 != id);
                assert(oj != i);
                let j = if oj < i { oj } else { oj - 1 };
                assert(ids1[j] == ids0[oj]);
            }
            assert forall|a: int, b: int|
                0 <= a < ids1.len() && 0 <= b < ids1.len() && a != b implies (#[trigger] ids1[a])@ != (
                #[trigger] ids1[b])@ by {
                let oa = if a < i { a } else { a + 1 };
                let ob = if b < i { b } else { b + 1 };
                assert(ids1[a] == ids0[oa] && ids1[b] == ids0[ob]);
            }
            assert forall|j: int| 0 <= j < slots1.len() implies !slots_empty(#[trigger] slots1[j]) by {
                let oj = if j < i { j } else { j + 1 };
                assert(slots1[j] == slots0[oj]);
            }
        } else {
            self.cached_slots.set(i, ns);
            self.cache_view = Ghost(c2);
            let ghost slots1 = self.cached_slots@;
            assert(!slots_empty(ns));
            assert(has_chunk(c2, id)) by {
                let l = if ns.high is Some {
                    LodLevel::High
                } else if ns.medium is Some {
                    LodLevel::Medium
                } else {
                    LodLevel::Low
                };
                assert(slot_of(ns, l) is Some);
                assert(l != lod);
                assert(slot_of(slots0[i as int], l) == (if c.contains_key((ids0[i as int]@, l)) {
                    Some(c[(ids0[i as int]@, l)])
                } else {
                    None
                }));
                assert(c2.contains_key((id, l)));
            }
            assert forall|j: int, l: LodLevel| 0 <= j < ids0.len() implies #[trigger] slot_of(slots1[j], l)
                == (if c2.contains_key((ids0[j]@, l)) {
                Some(c2[(ids0[j]@, l)])
            } else {
                None
            }) by {
                assert(slot_of(slots0[j], l) == (if c.contains_key((ids0[j]@, l)) {
                    Some(c[(ids0[j]@, l)])
                } else {
                    None
                }));
                if j != i {
                    assert(ids0[j]@ != id);
                }
            }
            assert forall|k: (Seq<char>, LodLevel)| #[trigger] c2.contains_key(k) implies exists|j: int|
                0 <= j < ids0.len() && (#[trigger] ids0[j])@ == k.0 by {
                assert(c.contains_key(k));
            }
            assert forall|j: int| 0 <= j < slots1.len() implies !slots_empty(#[trigger] slots1[j]) by {
                if j != i {
                    assert(slots1[j] == slots0[j]);
                }
            }
        }
        h
    }

    /// Puts a resource in the cache slot of a chunk and level that is empty.
    fn cache_put(&mut self, id: String, lod: LodLevel, h: MeshHandle)
        requires
            old(self).cache_consistent(),
            !old(self)@.cached.contains_key((id@, lod)),
        ensures
            final(self).cache_consistent(),
            final(self)@ == (PoolView {
                cached: old(self)@.cached.insert((id@, lod), h),
                cached_chunks: if has_chunk(old(self)@.cached, id@) {
                    old(self)@.cached_chunks
                } else {
                    old(self)@.cached_chunks + 1
                },
                ..old(self)@
            }),
    {
        let ghost c = self.cache_view@;
        let ghost ids0 = self.cached_ids@;
        let ghost slots0 = self.cached_slots@;
        let ghost c2 = c.insert((id@, lod), h);
        proof {
            self.lemma_has_chunk(id@);
        }
        match self.find_chunk(&id) {
            Some(i) => {
                let s = self.cached_slots[i];
                let ns = with_slot(s, lod, Some(h));
                self.cached_slots.set(i, ns);
                self.cache_view = Ghost(c2);
                let ghost slots1 = self.cached_slots@;
                assert forall|j: int, l: LodLevel| 0 <= j < ids0.len() implies #[trigger] slot_of(
                    slots1[j],
                    l,
                ) == (if c2.contains_key((ids0[j]@, l)) {
                    Some(c2[(ids0[j]@, l)])
                } else {
                    None
                }) by {
                    assert(slot_of(slots0[j], l) == (if c.contains_key((ids0[j]@, l)) {
                        Some(c[(ids0[j]@, l)])
                    } else {
                        None
                    }));
                    if j != i {
                        assert(ids0[j]@ != id@);
                    }
                }
                assert forall|k: (Seq<char>, LodLevel)| #[trigger] c2.contains_key(k) implies exists|j: int|
                    0 <= j < ids0.len() && (#[trigger] ids0[j])@ == k.0 by {
                    if k != (id@, lod) {
                        assert(c.contains_key(k));
                    } else {
                        assert(ids0[i as int]@ == k.0);
                    }
                }
                assert forall|j: int| 0 <= j < slots1.len() implies !slots_empty(#[trigger] slots1[j]) by {
                    if j != i {
                        assert(slots1[j] == slots0[j]);
                    } else {
                        assert(slot_of(ns, lod) is Some);
                    }
                }
            },
            None => {
                let empty = LodSlots { high: None, medium: None, low: None };
                let ns = with_slot(empty, lod, Some(h));
                let ghost idv = id@;
                self.cached_ids.push(id);
                self.cached_slots.push(ns);
                self.cache_view = Ghost(c2);
                let ghost ids1 = self.cached_ids@;
                let ghost slots1 = self.cached_slots@;
                let ghost n = ids0.len() as int;
                assert forall|l: LodLevel| !c.contains_key((idv, l)) by {
                    if c.contains_key((idv, l)) {
                        assert(has_chunk(c, idv)) by {
                            match l {
                                LodLevel::High => {},
                                LodLevel::Medium => {},
                                LodLevel::Low => {},
                            }
                        }
                    }
                }
                assert forall|j: int, l: LodLevel| 0 <= j < ids1.len() implies #[trigger] slot_of(
                    slots1[j],
                    l,
                ) == (if c2.contains_key((ids1[j]@, l)) {
                    Some(c2[(ids1[j]@, l)])
                } else {
                    None
                }) by {
                    if j < n {
                        assert(ids1[j] == ids0[j] && slots1[j] == slots0[j]);
                        assert(slot_of(slots0[j], l) == (if c.contains_key((ids0[j]@, l)) {
                            Some(c[(ids0[j]@, l)])
                        } else {
                            None
                        }));
                        assert(ids0[j]@ != idv);
                    } else {
                        assert(ids1[j]@ == idv && slots1[j] == ns);
                        assert(slot_of(empty, l) is None);
                    }
                }
                assert forall|k: (Seq<char>, LodLevel)| #[trigger] c2.contains_key(k) implies exists|j: int|
                    0 <= j < ids1.len() && (#[trigger] ids1[j])@ == k.0 by {
                    if k != (idv, lod) {
                        assert(c.contains_key(k));
                        let oj = choose|oj: int| 0 <= oj < ids0.len() && (#[trigger] ids0[oj])@ == k.0;
                        assert(ids1[oj] == ids0[oj]);
                    } else {
                        assert(ids1[n]@ == k.0);
                    }
                }
                assert forall|a: int, b: int|
                    0 <= a < ids1.len() && 0 <= b < ids1.len() && a != b implies (#[trigger] ids1[a])@
                    != (#[trigger] ids1[b])@ by {
                    if a < n && b < n {
                        assert(ids1[a] == ids0[a] && ids1[b] == ids0[b]);
                    } else if a < n {
                        assert(ids1[a] == ids0[a]);
                    } else if b < n {
                        assert(ids1[b] == ids0[b]);
                    }
                }
                assert forall|j: int| 0 <= j < slots1.len() implies !slots_empty(#[trigger] slots1[j]) by {
                    if j < n {
                        assert(slots1[j] == slots0[j]);
                    } else {
                        assert(slot_of(ns, lod) is Some);
                    }
                }
            },
        }
    }

    fn register(&mut self, owner: u64, h: MeshHandle, chunk_id: Option<String>, lod_level: Option<LodLevel>)
        requires
            old(self).cache_consistent(),
        ensures
            final(self).cache_consistent(),
            final(self)@ == registered(
                old(self)@,
                owner,
                h,
                match chunk_id {
                    Some(s) => Some(s@),
                    None => None,
                },
                lod_level,
            ),
    {
        let info = MeshUsageInfo { handle: h, chunk_id, lod_level };
        let ghost iv = info@;
        self.active_meshes.insert(owner, info);
        assert(self@.active =~= old(self)@.active.insert(owner, iv));
    }

    /// Hands the owner's resource back: into the per-chunk cache when it
    /// knows its chunk and level and fewer than `max_cached_chunks` chunks are
    /// cached, a resource already in that slot going onto the free list while
    /// it is shorter than `max_pool_size` and being destroyed otherwise; else
    /// onto the free list while it is shorter than `max_pool_size`; else it is
    /// destroyed.
    pub fn return_mesh(&mut self, owner: u64) -> (r: ReturnOutcome)
        requires
            old(self).wf(),
        ensures
            final(self).wf(),
            (final(self)@, r) == released(old(self)@, owner),
    {
        proof {
            lemma_released_partitioned(self@, owner);
        }
        let ghost v = self@;
        match self.active_meshes.remove(&owner) {
            None => {
                assert(!v.active.contains_key(owner));
                assert(self@.active =~= v.active);
                assert(self@ == v);
                ReturnOutcome::NotActive
            },
            Some(info) => {
                assert(self@.active =~= v.active.remove(owner));
                let h = info.handle;
                let MeshUsageInfo { handle: _, chunk_id, lod_level } = info;
                match (chunk_id, lod_level) {
                    (Some(id), Some(lod)) => {
                        if self.cached_ids.len() < self.max_cached_chunks {
                            assert(v.active[owner].chunk_id == Some(id@));
                            if !self.cache_contains(&id, lod) {
                                self.cache_put(id, lod, h);
                                assert(self@ == released(v, owner).0);
                                return ReturnOutcome::Cached(h, Displaced::Nothing);
                            }
                            let ghost key = (id@, lod);
                            let ghost c = self.cache_view@;
                            let i = match self.find_chunk(&id) {
                                Some(i) => i,
                                None => {
                                    assert(false);
                                    0
                                },
                            };
                            assert(slot_of(self.cached_slots@[i as int], lod) == (if c.contains_key(
                                (self.cached_ids@[i as int]@, lod),
                            ) {
                                Some(c[(self.cached_ids@[i as int]@, lod)])
                            } else {
                                None
                            }));
                            let h2 = self.cache_take(i, lod);
                            self.cache_put(id, lod, h);
                            assert(self@.cached =~= v.cached.insert(key, h));
                            assert(has_chunk(v.cached, key.0));
                            if self.available_generic_meshes.len() < self.max_pool_size {
                                self.available_generic_meshes.push_back(h2);
                                assert(self@ == released(v, owner).0);
                                return ReturnOutcome::Cached(h, Displaced::Recycled(h2));
                            }
                            assert(self@ == released(v, owner).0);
                            return ReturnOutcome::Cached(h, Displaced::Destroyed(h2));
                        }
                    },
                    _ => {},
                }
                if self.available_generic_meshes.len() < self.max_pool_size {
                    self.available_generic_meshes.push_back(h);
                    assert(self@ == released(v, owner).0);
                    ReturnOutcome::Recycled(h)
                } else {
                    assert(self@ == released(v, owner).0);
                    ReturnOutcome::Destroyed(h)
                }
            },
        }
    }

    /// Gives `owner` the cached resource of the chunk at the level, if there is
    /// one; the owner's previous resource is handed back first.
    pub fn get_cached_mesh(&mut self, owner: u64, chunk_id: &str, lod: LodLevel) -> (r: Option<MeshGrant>)
        requires
            old(self).wf(),
        ensures
            final(self).wf(),
            match r {
                None => !old(self)@.cached.contains_key((chunk_id@, lod)) && final(self)@ == old(self)@,
                Some(g) => old(self)@.cached.contains_key((chunk_id@, lod)) && (final(self)@, g)
                    == cache_hit(old(self)@, owner, chunk_id@, lod),
            },
    {
        let id = chunk_id.to_owned();
        match self.find_chunk(&id) {
            None => {
                assert(!self.cache_view@.contains_key((id@, lod)));
                None
            },
            Some(i) => {
                let s = self.cached_slots[i];
                if get_slot(s, lod).is_none() {
                    return None;
                }
                let ghost v = self@;
                proof {
                    lemma_cache_taken(v, id@, lod);
                }
                let h = self.cache_take(i, lod);
                proof {
                    lemma_released_partitioned(self@, owner);
                    lemma_released_unused(self@, owner, h);
                }
                let out = self.return_mesh(owner);
                proof {
                    lemma_registered(self@, owner, h, Some(id@), Some(lod));
                }
                self.register(owner, h, Some(id), Some(lod));
                Some(MeshGrant { handle: h, created: false, released: out })
            },
        }
    }

    fn acquire_generic(&mut self, owner: u64, chunk_id: Option<String>, lod: Option<LodLevel>) -> (r: MeshGrant)
        requires
            old(self).wf(),
            old(self)@.next_handle < u64::MAX,
        ensures
            final(self).wf(),
            (final(self)@, r) == generic_acquired(
                old(self)@,
                owner,
                match chunk_id {
                    Some(s) => Some(s@),
                    None => None,
                },
                lod,
            ),
    {
        let ghost idv = id_view(&chunk_id);
        proof {
            lemma_generic_partitioned(self@, owner, idv, lod);
            lemma_released_partitioned(self@, owner);
        }
        let out = self.return_mesh(owner);
        let ghost v1 = self@;
        match self.available_generic_meshes.pop_front() {
            Some(h) => {
                assert(self@.free =~= v1.free.drop_first());
                self.register(owner, h, chunk_id, lod);
                MeshGrant { handle: h, created: false, released: out }
            },
            None => {
                let h = self.next_handle;
                self.next_handle = self.next_handle + 1;
                self.register(owner, h, chunk_id, lod);
                MeshGrant { handle: h, created: true, released: out }
            },
        }
    }

    /// Gives `owner` a resource: the cached one of the chunk at the level when
    /// both are given and cached, else the front of the free list, else a new
    /// one. The owner's previous resource is handed back first.
    pub fn get_mesh(&mut self, owner: u64, chunk_id: Option<&str>, lod: Option<LodLevel>) -> (r: MeshGrant)
        requires
            old(self).wf(),
            old(self)@.next_handle < u64::MAX,
        ensures
            final(self).wf(),
            (final(self)@, r) == acquired(
                old(self)@,
                owner,
                match chunk_id {
                    Some(s) => Some(s@),
                    None => None,
                },
                lod,
            ),
    {
        if let (Some(id), Some(l)) = (chunk_id, lod) {
            if let Some(g) = self.get_cached_mesh(owner, id, l) {
                return g;
            }
        }
        let owned = match chunk_id {
            Some(id) => Some(id.to_owned()),
            None => None,
        };
        self.acquire_generic(owner, owned, lod)
    }

    /// Points the owner's resource (kept if it has one, else acquired) at the
    /// chunk and level whose mesh is being uploaded, and, where the cache holds
    /// no resource for them, creates a second resource for the cache. Both
    /// resources named in the result are to be filled with the mesh.
    pub fn update_and_cache_mesh(&mut self, owner: u64, chunk_id: &str, lod: LodLevel) -> (r: CacheUpdate)
        requires
            old(self).wf(),
            old(self)@.next_handle + 1 < u64::MAX,
        ensures
            final(self).wf(),
            (final(self)@, r) == updated(old(self)@, owner, chunk_id@, lod),
    {
        proof {
            lemma_updated_partitioned(self@, owner, chunk_id@, lod);
        }
        let g = match self.active_meshes.get(&owner) {
            Some(info) => MeshGrant { handle: info.handle, created: false, released: ReturnOutcome::NotActive },
            None => self.get_mesh(owner, Some(chunk_id), Some(lod)),
        };
        let id = chunk_id.to_owned();
        self.register(owner, g.handle, Some(id), Some(lod));
        let id2 = chunk_id.to_owned();
        if self.cache_contains(&id2, lod) {
            CacheUpdate { displayed: g, cached_copy: None }
        } else {
            let c = self.next_handle;
            self.next_handle = self.next_handle + 1;
            self.cache_put(id2, lod, c);
            CacheUpdate { displayed: g, cached_copy: Some(c) }
        }
    }

    /// Fills the free list with `min_pool_size` new placeholder resources and
    /// returns their handles.
    pub fn initialize(&mut self) -> (r: Vec<MeshHandle>)
        requires
            old(self).wf(),
            old(self)@.next_handle + old(self)@.min_pool_size < u64::MAX,
        ensures
            final(self).wf(),
            r@.len() == old(self)@.min_pool_size,
            forall|i: int| 0 <= i < r@.len() ==> #[trigger] r@[i] == old(self)@.next_handle + i,
            final(self)@ == (PoolView {
                free: old(self)@.free + r@,
                next_handle: old(self)@.next_handle + old(self)@.min_pool_size,
                ..old(self)@
            }),
    {
        let ghost v = self@;
        let mut created: Vec<MeshHandle> = Vec::new();
        let mut k: usize = 0;
        while k < self.min_pool_size
            invariant
                k <= self.min_pool_size,
                self.min_pool_size == v.min_pool_size,
                v.next_handle + v.min_pool_size < u64::MAX,
                self.cache_consistent(),
                partitioned(self@),
                created@.len() == k,
                forall|i: int| 0 <= i < k ==> #[trigger] created@[i] == v.next_handle + i,
                self@ == (PoolView { free: v.free + created@, next_handle: (v.next_handle + k) as nat, ..v }),
            decreases self.min_pool_size - k,
        {
            let h = self.next_handle;
            proof {
                lemma_fresh(self@);
            }
            self.next_handle = self.next_handle + 1;
            let ghost before = self.available_generic_meshes@;
            self.available_generic_meshes.push_back(h);
            created.push(h);
            assert(v.free + created@ =~= before.push(h));
            proof {
                let p = self@;
                assert forall|i: int, j: int| 0 <= i < p.free.len() && 0 <= j < p.free.len() && i != j
                    implies p.free[i] != p.free[j] by {
                    if i < before.len() && j < before.len() {
                        assert(before.no_duplicates());
                    }
                }
            }
            k = k + 1;
        }
        created
    }

    /// Free, cached, active resource counts and the free list's capacity.
    pub fn stats(&self) -> (r: (usize, usize, usize, usize))
        requires
            self.wf(),
        ensures
            r.0 == self@.free.len(),
            r.1 == (if self@.cached.dom().len() <= usize::MAX {
                self@.cached.dom().len()
            } else {
                usize::MAX as nat
            }),
            r.2 == self@.active.dom().len(),
            r.3 == self@.max_pool_size,
    {
        proof {
            self.lemma_cached_count();
        }
        let mut total: usize = 0;
        let mut i: usize = 0;
        while i < self.cached_slots.len()
            invariant
                self.cache_consistent(),
                i <= self.cached_slots@.len(),
                total == (if self.cached_total(i as int) <= usize::MAX {
                    self.cached_total(i as int)
                } else {
                    usize::MAX as nat
                }),
            decreases self.cached_slots@.len() - i,
        {
            let s = self.cached_slots[i];
            let n: usize = (if s.high.is_some() { 1usize } else { 0 }) + (if s.medium.is_some() { 1usize } else { 0 })
                + (if s.low.is_some() { 1usize } else { 0 });
            if total > usize::MAX - n {
                total = usize::MAX;
            } else {
                total = total + n;
            }
            i = i + 1;
        }
        assert(self@.active.dom() =~= self.active_meshes@.dom());
        (self.available_generic_meshes.len(), total, self.active_meshes.len(), self.max_pool_size)
    }

    /// Cache keys of the first `n` cache entries.
    spec fn prefix_keys(&self, n: int) -> Set<(Seq<char>, LodLevel)>
        decreases n,
    {
        if n <= 0 {
            Set::empty()
        } else {
            self.prefix_keys(n - 1) + slot_keys(self.cached_ids@[n - 1]@, self.cached_slots@[n - 1])
        }
    }

    proof fn lemma_prefix_keys(&self, n: int)
        requires
            self.cache_consistent(),
            0 <= n <= self.cached_ids@.len(),
        ensures
            self.prefix_keys(n).finite(),
            self.prefix_keys(n).len() == self.cached_total(n),
            forall|k: (Seq<char>, LodLevel)| #[trigger] self.prefix_keys(n).contains(k) ==> exists|i: int|
                0 <= i < n && (#[trigger] self.cached_ids@[i])@ == k.0 && slot_of(self.cached_slots@[i], k.1) is Some,
        decreases n,
    {
        if n > 0 {
            self.lemma_prefix_keys(n - 1);
            let id = self.cached_ids@[n - 1]@;
            let sk = slot_keys(id, self.cached_slots@[n - 1]);
            lemma_slot_keys(id, self.cached_slots@[n - 1]);
            let p = self.prefix_keys(n - 1);
            assert(p.disjoint(sk)) by {
                assert forall|k: (Seq<char>, LodLevel)| p.contains(k) implies !sk.contains(k) by {
                    let i = choose|i: int|
                        0 <= i < n - 1 && (#[trigger] self.cached_ids@[i])@ == k.0 && slot_of(self.cached_slots@[i], k.1) is Some;
                    assert(self.cached_ids@[i]@ != self.cached_ids@[n - 1]@);
                }
            }
            vstd::set_lib::lemma_set_disjoint_lens(p, sk);
            assert forall|k: (Seq<char>, LodLevel)| #[trigger] self.prefix_keys(n).contains(k) implies exists|i: int|
                0 <= i < n && (#[trigger] self.cached_ids@[i])@ == k.0 && slot_of(self.cached_slots@[i], k.1) is Some by {
                if p.contains(k) {
                    let i = choose|i: int|
                        0 <= i < n - 1 && (#[trigger] self.cached_ids@[i])@ == k.0 && slot_of(self.cached_slots@[i], k.1) is Some;
                } else {
                    assert(sk.contains(k));
                    assert(self.cached_ids@[n - 1]@ == k.0);
                }
            }
        }
    }

    proof fn lemma_cached_count(&self)
        requires
            self.cache_consistent(),
        ensures
            self.cached_total(self.cached_ids@.len() as int) == self.cache_view@.dom().len(),
    {
        let n = self.cached_ids@.len() as int;
        let c = self.cache_view@;
        self.lemma_prefix_keys(n);
        assert forall|k: (Seq<char>, LodLevel)| #[trigger] c.dom().contains(k) <==> self.prefix_keys(n).contains(k) by {
            if c.contains_key(k) {
                let i = choose|i: int| 0 <= i < self.cached_ids@.len() && (#[trigger] self.cached_ids@[i])@ == k.0;
                assert(slot_of(self.cached_slots@[i], k.1) == (if c.contains_key((self.cached_ids@[i]@, k.1)) {
                    Some(c[(self.cached_ids@[i]@, k.1)])
                } else {
                    None
                }));
                self.lemma_prefix_contains(i, n, k);
            }
            if self.prefix_keys(n).contains(k) {
                let i = choose|i: int|
                    0 <= i < n && (#[trigger] self.cached_ids@[i])@ == k.0 && slot_of(self.cached_slots@[i], k.1) is Some;
                assert(slot_of(self.cached_slots@[i], k.1) == (if c.contains_key((self.cached_ids@[i]@, k.1)) {
                    Some(c[(self.cached_ids@[i]@, k.1)])
                } else {
                    None
                }));
            }
        }
        assert(c.dom() =~= self.prefix_keys(n));
    }

    proof fn lemma_prefix_contains(&self, i: int, n: int, k: (Seq<char>, LodLevel))
        requires
            self.cache_consistent(),
            0 <= i < n <= self.cached_ids@.len(),
            self.cached_ids@[i]@ == k.0,
            slot_of(self.cached_slots@[i], k.1) is Some,
        ensures
            self.prefix_keys(n).contains(k),
        decreases n,
    {
        lemma_slot_keys(self.cached_ids@[n - 1]@, self.cached_slots@[n - 1]);
        if i < n - 1 {
            self.lemma_prefix_contains(i, n - 1, k);
        }
    }

    /// Number of cached resources in the first `n` cache entries.
    closed spec fn cached_total(&self, n: int) -> nat
        decreases n,
    {
        if n <= 0 {
            0
        } else {
            let s = self.cached_slots@[n - 1];
            self.cached_total(n - 1) + (if s.high is Some { 1nat } else { 0nat }) + (if s.medium is Some {
                1nat
            } else {
                0nat
            }) + (if s.low is Some { 1nat } else { 0nat })
        }
    }

    /// Number of handles issued so far; no operation issues one past `u64::MAX`.
    pub fn handles_issued(&self) -> (r: u64)
        ensures
            r == self@.next_handle,
    {
        self.next_handle
    }
}

impl Default for MeshPool {
    /// A pool that starts with 10 free resources, keeps at most 50, and caches
    /// resources of at most 100 chunks.
    fn default() -> (r: MeshPool)
        ensures
            r.wf(),
            r@.free == Seq::<MeshHandle>::empty(),
            r@.active == Map::<u64, ActiveMesh>::empty(),
            r@.cached == Map::<(Seq<char>, LodLevel), MeshHandle>::empty(),
            r@.cached_chunks == 0,
            r@.min_pool_size == 10,
            r@.max_pool_size == 50,
            r@.max_cached_chunks == 100,
            r@.next_handle == 0,
    {
        MeshPool::new(10, 50, 100)
    }
}

/// In a consistent pool every resource is in exactly one place: on the free
/// list once, or with exactly one owner, or under exactly one cache key, and
/// never in two of these. Every pool operation keeps the pool consistent.
pub proof fn lemma_resource_in_one_place(pool: &MeshPool, h: MeshHandle)
    requires
        pool.wf(),
    ensures
        ({
            let v = pool@;
            let in_free = exists|i: int| 0 <= i < v.free.len() && v.free[i] == h;
            let in_active = exists|o: u64| v.active.contains_key(o) && v.active[o].handle == h;
            let in_cache = exists|k: (Seq<char>, LodLevel)| v.cached.contains_key(k) && v.cached[k] == h;
            &&& !(in_free && in_active)
            &&& !(in_free && in_cache)
            &&& !(in_active && in_cache)
            &&& forall|i: int, j: int|
                0 <= i < v.free.len() && 0 <= j < v.free.len() && v.free[i] == h && v.free[j] == h ==> i == j
            &&& forall|a: u64, b: u64|
                v.active.contains_key(a) && v.active.contains_key(b) && v.active[a].handle == h
                    && v.active[b].handle == h ==> a == b
            &&& forall|a: (Seq<char>, LodLevel), b: (Seq<char>, LodLevel)|
                v.cached.contains_key(a) && v.cached.contains_key(b) && v.cached[a] == h && v.cached[b] == h ==> a == b
        }),
{
    let v = pool@;
    assert(partitioned(v));
    assert forall|i: int, j: int|
        0 <= i < v.free.len() && 0 <= j < v.free.len() && v.free[i] == h && v.free[j] == h implies i == j by {
        assert(v.free.no_duplicates());
    }
    assert forall|a: u64, b: u64|
        v.active.contains_key(a) && v.active.contains_key(b) && v.active[a].handle == h
            && v.active[b].handle == h implies a == b by {
        if a != b {
            assert(v.active[a].handle != v.active[b].handle);
        }
    }
    assert forall|a: (Seq<char>, LodLevel), b: (Seq<char>, LodLevel)|
        v.cached.contains_key(a) && v.cached.contains_key(b) && v.cached[a] == h && v.cached[b] == h implies a == b by {
        if a != b {
            assert(v.cached[a] != v.cached[b]);
        }
    }
    if exists|i: int| 0 <= i < v.free.len() && v.free[i] == h {
        let i = choose|i: int| 0 <= i < v.free.len() && v.free[i] == h;
        assert forall|o: u64| v.active.contains_key(o) implies v.active[o].handle != h by {
            assert(v.free[i] != v.active[o].handle);
        }
        assert forall|k: (Seq<char>, LodLevel)| v.cached.contains_key(k) implies v.cached[k] != h by {
            assert(v.free[i] != v.cached[k]);
        }
    }
    if exists|o: u64| v.active.contains_key(o) && v.active[o].handle == h {
        let o = choose|o: u64| v.active.contains_key(o) && v.active[o].handle == h;
        assert forall|k: (Seq<char>, LodLevel)| v.cached.contains_key(k) implies v.cached[k] != h by {
            assert(v.active[o].handle != v.cached[k]);
        }
    }
}

} // verus!
