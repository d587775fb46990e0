use vstd::prelude::*;
use vstd::string::StringExecFns;
use crate::lod::{LodLevel, lod_directory_name};

verus! {

/// A path with one more segment: `base/segment`.
pub open spec fn join_path(base: Seq<char>, segment: Seq<char>) -> Seq<char> {
    base + seq!['/'] + segment
}

fn join(base: &str, segment: &str) -> (r: String)
    ensures
        r@ == join_path(base@, segment@),
{
    proof {
        reveal_strlit("/");
    }
    let s = base.to_owned();
    let s = s.concat("/");
    s.concat(segment)
}

/// Relies on `dirs::cache_dir`: the platform's per-user cache directory, when
/// it can be found. It depends on the environment, so nothing is stated of it.
#[verifier::external_body]
fn platform_cache_dir() -> Option<String> {
    dirs::cache_dir().map(|p| p.to_string_lossy().into_owned())
}

pub open spec fn app_cache_path(base: Seq<char>) -> Seq<char> {
    join_path(join_path(base, "fallen-age"@), "cache"@)
}

/// The application's cache root under a platform cache directory.
pub fn cache_directory_under(base: &str) -> (r: String)
    ensures
        r@ == app_cache_path(base@),
{
    let app = join(base, "fallen-age");
    join(app.as_str(), "cache")
}

/// The application's cache root, when the platform has a cache directory.
pub fn cache_directory() -> (r: Option<String>)
    ensures
        r matches Some(p) ==> exists|b: Seq<char>| p@ == app_cache_path(b),
{
    match platform_cache_dir() {
        Some(base) => {
            let r = cache_directory_under(base.as_str());
            assert(r@ == app_cache_path(base@));
            Some(r)
        },
        None => None,
    }
}

pub open spec fn terrain_dir_path(root: Seq<char>) -> Seq<char> {
    join_path(root, "terrain"@)
}

pub open spec fn lod_dir_path(root: Seq<char>, lod: LodLevel) -> Seq<char> {
    join_path(terrain_dir_path(root), lod_directory_name(lod))
}

pub open spec fn mesh_file_path(root: Seq<char>, chunk_id: Seq<char>, lod: LodLevel) -> Seq<char> {
    join_path(lod_dir_path(root, lod), chunk_id + ".mesh"@)
}

/// Directory of the terrain mesh cache under the cache root.
pub fn terrain_mesh_cache_dir(cache_root: &str) -> (r: String)
    ensures
        r@ == terrain_dir_path(cache_root@),
{
    join(cache_root, "terrain")
}

/// Directory of one level's cached meshes.
pub fn terrain_mesh_lod_dir(cache_root: &str, lod: LodLevel) -> (r: String)
    ensures
        r@ == lod_dir_path(cache_root@, lod),
{
    let dir = terrain_mesh_cache_dir(cache_root);
    join(dir.as_str(), lod.directory_name())
}

/// Cache file of one chunk's mesh at one level.
pub fn terrain_mesh_cache(cache_root: &str, chunk_id: &str, lod: LodLevel) -> (r: String)
    ensures
        r@ == mesh_file_path(cache_root@, chunk_id@, lod),
{
    let dir = terrain_mesh_lod_dir(cache_root, lod);
    let name = chunk_id.to_owned().concat(".mesh");
    join(dir.as_str(), name.as_str())
}

/// The directories that terrain setup creates, parents first: the terrain
/// cache directory, then one per level in the order High, Medium, Low.
pub fn setup(cache_root: &str) -> (r: Vec<String>)
    ensures
        r@.len() == 4,
        r@[0]@ == terrain_dir_path(cache_root@),
        r@[1]@ == lod_dir_path(cache_root@, LodLevel::High),
        r@[2]@ == lod_dir_path(cache_root@, LodLevel::Medium),
        r@[3]@ == lod_dir_path(cache_root@, LodLevel::Low),
{
    let mut dirs: Vec<String> = Vec::new();
    dirs.push(terrain_mesh_cache_dir(cache_root));
    let levels = LodLevel::all_levels();
    let mut i: usize = 0;
    while i < levels.len()
        invariant
            levels@ == seq![LodLevel::High, LodLevel::Medium, LodLevel::Low],
            i <= 3,
            dirs@.len() == i + 1,
            dirs@[0]@ == terrain_dir_path(cache_root@),
            forall|j: int| 0 <= j < i ==> (#[trigger] dirs@[j + 1])@ == lod_dir_path(cache_root@, levels@[j]),
        decreases 3 - i,
    {
        dirs.push(terrain_mesh_lod_dir(cache_root, levels[i]));
        i = i + 1;
    }
    assert(dirs@[0int + 1]@ == lod_dir_path(cache_root@, levels@[0]));
    assert(dirs@[1int + 1]@ == lod_dir_path(cache_root@, levels@[1]));
    assert(dirs@[2int + 1]@ == lod_dir_path(cache_root@, levels@[2]));
    dirs
}

} // verus!
